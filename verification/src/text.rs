//! Text helpers: shortening labels, and comparing names without regard to ASCII case.

use vstd::prelude::*;
use vstd::string::StrSliceExecFns;
use vstd::string::StringExecFns;

verus! {

/// The sign that stands for the rest of a shortened text.
pub const ELLIPSIS: char = '\u{2026}';

/// `text` in at most `max_chars` characters: where it is longer, its beginning and an ellipsis.
/// A limit below two leaves it whole.
pub open spec fn truncated(text: Seq<char>, max_chars: nat) -> Seq<char> {
    if text.len() <= max_chars || max_chars < 2 {
        text
    } else {
        text.take(max_chars - 1).push(ELLIPSIS)
    }
}

/// Shortens a text to at most `max_chars` characters: where it is longer, its beginning and an
/// ellipsis. A limit below two leaves it whole.
pub fn truncate_text(input: &str, max_chars: usize) -> (result: String)
    ensures
        result@ == truncated(input@, max_chars as nat),
{
    let count: usize = input.unicode_len();
    if count <= max_chars || max_chars < 2 {
        return input.to_owned();
    }
    let keep: usize = max_chars - 1;
    let mut out: String = input.substring_char(0, keep).to_owned();
    out.append("\u{2026}");
    proof {
        reveal_strlit("\u{2026}");
        assert(input@.subrange(0, keep as int) =~= input@.take(keep as int));
        assert("\u{2026}"@ =~= seq![ELLIPSIS]);
        assert(out@ =~= truncated(input@, max_chars as nat));
    }
    out
}

/// A shortened text is never longer than the limit, begins as the text did, and shortening it
/// again changes nothing.
pub proof fn law_truncation(text: Seq<char>, max_chars: nat)
    requires
        max_chars >= 2,
    ensures
        truncated(text, max_chars).len() == if text.len() <= max_chars {
            text.len()
        } else {
            max_chars
        },
        text.len() <= max_chars ==> truncated(text, max_chars) == text,
        text.len() > max_chars ==> truncated(text, max_chars).drop_last() == text.take(
            max_chars - 1,
        ) && truncated(text, max_chars).last() == ELLIPSIS,
        truncated(truncated(text, max_chars), max_chars) == truncated(text, max_chars),
{
    if text.len() > max_chars {
        assert(truncated(text, max_chars).drop_last() =~= text.take(max_chars - 1));
    }
}

/// What a shortened text is, character by character: whole where it fits or the limit is below
/// two, else as many characters as the limit allows, all but the last of which are the first ones
/// of the text, and the last of which is the horizontal ellipsis.
pub proof fn law_truncation_by_character(text: Seq<char>, max_chars: nat)
    ensures
        max_chars < 2 ==> truncated(text, max_chars) == text,
        text.len() <= max_chars ==> truncated(text, max_chars) == text,
        max_chars >= 2 && text.len() > max_chars ==> {
            &&& truncated(text, max_chars).len() == max_chars
            &&& truncated(text, max_chars)[max_chars - 1] == '\u{2026}'
            &&& forall|i: int|
                0 <= i < max_chars - 1 ==> #[trigger] truncated(text, max_chars)[i] == text[i]
        },
{
}

/// The lower-case form of an ASCII letter; any other character itself.
pub open spec fn ascii_lower(c: char) -> char {
    if 'A' <= c <= 'Z' {
        (c as u8 + 32) as char
    } else {
        c
    }
}

/// A text with its ASCII letters in lower case.
pub open spec fn lowercase(text: Seq<char>) -> Seq<char> {
    text.map_values(|c: char| ascii_lower(c))
}

/// Whether `needle` stands in `text` at `at`.
pub open spec fn occurs_at(text: Seq<char>, needle: Seq<char>, at: int) -> bool {
    0 <= at && at + needle.len() <= text.len() && text.subrange(at, at + needle.len()) == needle
}

/// Whether `needle` stands anywhere in `text`.
pub open spec fn occurs(text: Seq<char>, needle: Seq<char>) -> bool {
    exists|at: int| occurs_at(text, needle, at)
}

/// The lower-case form of an ASCII letter; any other character itself.
fn to_ascii_lower(c: char) -> (result: char)
    ensures
        result == ascii_lower(c),
{
    if 'A' <= c && c <= 'Z' {
        (c as u8 + 32) as char
    } else {
        c
    }
}

/// The characters of a text, its ASCII letters in lower case.
pub fn to_ascii_lowercase(text: &str) -> (result: Vec<char>)
    ensures
        result@ == lowercase(text@),
{
    let mut result: Vec<char> = Vec::new();
    for c in iter: text.chars()
        invariant
            iter.seq() == text@,
            result@ == lowercase(text@.take(iter.index() as int)),
    {
        result.push(to_ascii_lower(c));
        assert(result@ =~= lowercase(text@.take(iter.index() as int + 1)));
    }
    assert(text@.take(text@.len() as int) =~= text@);
    result
}

/// Whether two characters are the same but for the case of an ASCII letter.
pub open spec fn same_ignoring_case(a: char, b: char) -> bool {
    ||| a == b
    ||| 'A' <= a <= 'Z' && b as int == a as int + 32
    ||| 'A' <= b <= 'Z' && a as int == b as int + 32
}

/// Whether `part` stands in `text` at `at`, character by character but for the case of ASCII
/// letters.
pub open spec fn holds_at(text: Seq<char>, part: Seq<char>, at: int) -> bool {
    &&& 0 <= at
    &&& at + part.len() <= text.len()
    &&& forall|j: int|
        0 <= j < part.len() ==> same_ignoring_case(#[trigger] text[at + j], part[j])
}

/// Two characters have the same lower-case form exactly if they are the same but for the case of
/// an ASCII letter; a lower-case form is no capital, and differs in nothing but case. A capital
/// stands 32 places before its lower-case form.
pub proof fn law_lower_case_of_a_character(a: char, b: char)
    ensures
        'A' <= a <= 'Z' ==> ascii_lower(a) as int == a as int + 32,
        !('A' <= a <= 'Z') ==> ascii_lower(a) == a,
        ascii_lower(a) == ascii_lower(b) <==> same_ignoring_case(a, b),
        same_ignoring_case(a, ascii_lower(a)),
        !('A' <= ascii_lower(a) <= 'Z'),
{
}

/// The lower-case form of a text has its length, and differs from it in nothing but the case of
/// ASCII letters, of which it has no capital.
pub proof fn law_lower_case_of_a_text(text: Seq<char>)
    ensures
        lowercase(text).len() == text.len(),
        forall|i: int|
            0 <= i < text.len() ==> same_ignoring_case(text[i], #[trigger] lowercase(text)[i])
                && !('A' <= lowercase(text)[i] <= 'Z'),
{
    assert forall|i: int| 0 <= i < text.len() implies same_ignoring_case(
        text[i],
        #[trigger] lowercase(text)[i],
    ) && !('A' <= lowercase(text)[i] <= 'Z') by {
        law_lower_case_of_a_character(text[i], text[i]);
    }
}

/// A text occurs in another exactly if there is a place from which on all its characters stand
/// there.
pub proof fn law_occurrence_by_character(text: Seq<char>, needle: Seq<char>, at: int)
    ensures
        occurs_at(text, needle, at) <==> {
            &&& 0 <= at
            &&& at + needle.len() <= text.len()
            &&& forall|j: int| 0 <= j < needle.len() ==> #[trigger] text[at + j] == needle[j]
        },
        occurs_at(text, needle, at) ==> occurs(text, needle),
        occurs(text, needle) ==> needle.len() <= text.len(),
        occurs(text, needle) ==> exists|p: int| #[trigger] occurs_at(text, needle, p),
{
    if 0 <= at && at + needle.len() <= text.len() {
        let part = text.subrange(at, at + needle.len());
        if occurs_at(text, needle, at) {
            assert forall|j: int| 0 <= j < needle.len() implies #[trigger] text[at + j]
                == needle[j] by {
                assert(part[j] == text[at + j]);
            }
        }
        if forall|j: int| 0 <= j < needle.len() ==> #[trigger] text[at + j] == needle[j] {
            assert(part =~= needle) by {
                assert forall|j: int| 0 <= j < needle.len() implies part[j] == needle[j] by {
                    assert(part[j] == text[at + j]);
                }
            }
        }
    }
}

/// A lower-case form occurs in another exactly if the text itself does but for the case of ASCII
/// letters.
pub proof fn law_occurrence_ignoring_case(text: Seq<char>, part: Seq<char>)
    ensures
        forall|at: int|
            #[trigger] occurs_at(lowercase(text), lowercase(part), at) <==> holds_at(
                text,
                part,
                at,
            ),
        occurs(lowercase(text), lowercase(part)) <==> exists|at: int| holds_at(text, part, at),
        text.len() < part.len() ==> !occurs(lowercase(text), lowercase(part)),
{
    let (low, wanted) = (lowercase(text), lowercase(part));
    assert forall|at: int| #[trigger] occurs_at(low, wanted, at) <==> holds_at(text, part, at) by {
        law_occurrence_by_character(low, wanted, at);
        if occurs_at(low, wanted, at) {
            assert forall|j: int| 0 <= j < part.len() implies same_ignoring_case(
                #[trigger] text[at + j],
                part[j],
            ) by {
                assert(low[at + j] == wanted[j]);
                law_lower_case_of_a_character(text[at + j], part[j]);
            }
        }
        if holds_at(text, part, at) {
            assert forall|j: int| 0 <= j < wanted.len() implies #[trigger] low[at + j]
                == wanted[j] by {
                assert(same_ignoring_case(text[at + j], part[j]));
                law_lower_case_of_a_character(text[at + j], part[j]);
            }
        }
    }
    if occurs(low, wanted) {
        let at = choose|at: int| occurs_at(low, wanted, at);
        assert(holds_at(text, part, at));
    }
    if exists|at: int| holds_at(text, part, at) {
        let at = choose|at: int| holds_at(text, part, at);
        assert(occurs_at(low, wanted, at));
    }
}

/// Whether `needle` stands in `text` at `at`.
fn matches_at(text: &Vec<char>, needle: &Vec<char>, at: usize) -> (result: bool)
    requires
        at + needle.len() <= text.len(),
    ensures
        result == occurs_at(text@, needle@, at as int),
{
    let mut idx: usize = 0;
    while idx < needle.len()
        invariant
            idx <= needle@.len(),
            at + needle.len() <= text.len(),
            forall|j: int| 0 <= j < idx ==> text@[at + j] == needle@[j],
        decreases needle@.len() - idx,
    {
        if text[at + idx] != needle[idx] {
            assert(text@.subrange(at as int, at + needle@.len())[idx as int] != needle@[idx as int]);
            return false;
        }
        idx = idx + 1;
    }
    assert(text@.subrange(at as int, at + needle@.len()) =~= needle@);
    true
}

/// Whether `needle` stands anywhere in `text`.
pub fn contains(text: &Vec<char>, needle: &Vec<char>) -> (result: bool)
    ensures
        result == occurs(text@, needle@),
{
    if needle.len() > text.len() {
        return false;
    }
    let last: usize = text.len() - needle.len();
    let mut at: usize = 0;
    loop
        invariant
            last + needle@.len() == text@.len(),
            at <= last,
            forall|earlier: int| 0 <= earlier < at ==> !occurs_at(text@, needle@, earlier),
        decreases last - at,
    {
        if matches_at(text, needle, at) {
            return true;
        }
        if at == last {
            return false;
        }
        at = at + 1;
    }
}

} // verus!
