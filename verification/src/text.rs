//! Text: numbers written out, bytes read as text, and the parts of a path.

use vstd::prelude::*;
use vstd::utf8::decode_utf8;
use vstd::utf8::valid_utf8;

verus! {

/// The character for a decimal digit.
pub open spec fn digit(d: nat) -> char {
    if d == 0 {
        '0'
    } else if d == 1 {
        '1'
    } else if d == 2 {
        '2'
    } else if d == 3 {
        '3'
    } else if d == 4 {
        '4'
    } else if d == 5 {
        '5'
    } else if d == 6 {
        '6'
    } else if d == 7 {
        '7'
    } else if d == 8 {
        '8'
    } else {
        '9'
    }
}

/// A number in decimal.
pub open spec fn decimal(n: nat) -> Seq<char>
    decreases n,
{
    if n < 10 {
        seq![digit(n)]
    } else {
        decimal(n / 10).push(digit(n % 10))
    }
}

fn digit_text(d: u64) -> (text: &'static str)
    requires
        d < 10,
    ensures
        text@ == seq![digit(d as nat)],
{
    proof {
        reveal_strlit("0");
        reveal_strlit("1");
        reveal_strlit("2");
        reveal_strlit("3");
        reveal_strlit("4");
        reveal_strlit("5");
        reveal_strlit("6");
        reveal_strlit("7");
        reveal_strlit("8");
        reveal_strlit("9");
    }
    let text = if d == 0 {
        "0"
    } else if d == 1 {
        "1"
    } else if d == 2 {
        "2"
    } else if d == 3 {
        "3"
    } else if d == 4 {
        "4"
    } else if d == 5 {
        "5"
    } else if d == 6 {
        "6"
    } else if d == 7 {
        "7"
    } else if d == 8 {
        "8"
    } else {
        "9"
    };
    assert(text@ =~= seq![digit(d as nat)]);
    text
}

/// Writes `n` in decimal.
pub fn decimal_text(n: u64) -> (text: String)
    ensures
        text@ == decimal(n as nat),
    decreases n,
{
    if n < 10 {
        digit_text(n).to_owned()
    } else {
        let mut text = decimal_text(n / 10);
        let ghost before = text@;
        text.append(digit_text(n % 10));
        assert(text@ =~= before.push(digit((n % 10) as nat)));
        text
    }
}

/// What [`String::from_utf8_lossy`] makes of bytes that are not UTF-8.
pub uninterp spec fn lossy_text(bytes: Seq<u8>) -> Seq<char>;

/// What [`str::to_lowercase`] makes of a text that is not all ASCII.
pub uninterp spec fn lowercase(text: Seq<char>) -> Seq<char>;

/// Calls [`std::str::from_utf8`]: the bytes as text, if they are UTF-8.
#[verifier::external_body]
pub(crate) fn utf8_text(bytes: &[u8]) -> (text: Option<&str>)
    ensures
        text is Some <==> valid_utf8(bytes@),
        text matches Some(t) ==> t@ == decode_utf8(bytes@),
{
    std::str::from_utf8(bytes).ok()
}

/// The text that bytes stand for, whatever they are.
pub open spec fn read_as_text(bytes: Seq<u8>) -> Seq<char> {
    if valid_utf8(bytes) {
        decode_utf8(bytes)
    } else {
        lossy_text(bytes)
    }
}

/// Calls [`String::from_utf8_lossy`]: bytes that are UTF-8 are read as they are; of
/// what becomes of others nothing is said, but that it depends on them alone.
#[verifier::external_body]
pub(crate) fn text_of(bytes: &[u8]) -> (text: String)
    ensures
        valid_utf8(bytes@) ==> text@ == decode_utf8(bytes@),
        !valid_utf8(bytes@) ==> text@ == lossy_text(bytes@),
{
    String::from_utf8_lossy(bytes).into_owned()
}

/// Whether each character of a text is an ASCII one.
pub open spec fn all_ascii(text: Seq<char>) -> bool {
    forall|i: int| 0 <= i < text.len() ==> (#[trigger] text[i]) as u32 <= 127
}

/// An ASCII text in lower case.
pub open spec fn ascii_lowered(text: Seq<char>) -> Seq<char> {
    Seq::new(
        text.len(),
        |i: int|
            if 'A' <= text[i] <= 'Z' {
                (text[i] as u32 + 32) as char
            } else {
                text[i]
            },
    )
}

/// A text in lower case.
pub open spec fn lowered(text: Seq<char>) -> Seq<char> {
    if all_ascii(text) {
        ascii_lowered(text)
    } else {
        lowercase(text)
    }
}

/// Calls [`str::to_lowercase`]: the capitals of an ASCII text become small letters;
/// of another text nothing is said, but that the result depends on it alone.
#[verifier::external_body]
pub(crate) fn to_lowercase(text: &str) -> (lower: String)
    ensures
        all_ascii(text@) ==> lower@ == ascii_lowered(text@),
        !all_ascii(text@) ==> lower@ == lowercase(text@),
{
    text.to_lowercase()
}

/// Where `c` stands last among the first `n` characters.
pub open spec fn last_before(text: Seq<char>, c: char, n: int) -> Option<int>
    decreases n,
{
    if n <= 0 {
        None
    } else if text[n - 1] == c {
        Some(n - 1)
    } else {
        last_before(text, c, n - 1)
    }
}

/// Where `c` stands last.
pub open spec fn last_position(text: Seq<char>, c: char) -> Option<int> {
    last_before(text, c, text.len() as int)
}

/// The place at which a character is found lies in the text.
pub(crate) proof fn lemma_last_before(text: Seq<char>, c: char, n: int)
    requires
        n <= text.len(),
    ensures
        last_before(text, c, n) matches Some(i) ==> 0 <= i < n && text[i] == c,
    decreases n,
{
    if n > 0 && text[n - 1] != c {
        lemma_last_before(text, c, n - 1);
    }
}

/// What follows the last `c`; all of the text, if there is none.
pub open spec fn behind_last(text: Seq<char>, c: char) -> Seq<char> {
    match last_position(text, c) {
        Some(i) => text.subrange(i + 1, text.len() as int),
        None => text,
    }
}

/// What stands before the last `c`; nothing, if there is none.
pub open spec fn ahead_of_last(text: Seq<char>, c: char) -> Seq<char> {
    match last_position(text, c) {
        Some(i) => text.subrange(0, i),
        None => Seq::empty(),
    }
}

/// How often `c` occurs among the first `n` characters.
pub open spec fn count_before(text: Seq<char>, c: char, n: int) -> nat
    decreases n,
{
    if n <= 0 {
        0
    } else {
        count_before(text, c, n - 1) + (if text[n - 1] == c {
            1nat
        } else {
            0nat
        })
    }
}

/// Finds where `c` stands last, in a text of `len` characters.
fn find_last(text: &str, c: char, len: usize) -> (at: Option<usize>)
    requires
        len == text@.len(),
    ensures
        match at {
            Some(i) => i < len && last_position(text@, c) == Some(i as int),
            None => last_position(text@, c) is None,
        },
{
    let mut n: usize = len;
    while n > 0
        invariant
            n <= len,
            len == text@.len(),
            last_position(text@, c) == last_before(text@, c, n as int),
        decreases n,
    {
        if text.get_char(n - 1) == c {
            return Some(n - 1);
        }
        n -= 1;
    }
    None
}

/// Whether `c` occurs.
pub(crate) fn has_char(text: &str, c: char) -> (yes: bool)
    ensures
        yes == last_position(text@, c) is Some,
{
    find_last(text, c, text.unicode_len()).is_some()
}

/// What follows the last `c`; all of the text, if there is none.
pub(crate) fn after_last(text: &str, c: char) -> (part: &str)
    ensures
        part@ == behind_last(text@, c),
{
    let len: usize = text.unicode_len();
    match find_last(text, c, len) {
        Some(i) => text.substring_char(i + 1, len),
        None => text,
    }
}

/// What stands before the last `c`; nothing, if there is none.
pub(crate) fn before_last(text: &str, c: char) -> (part: &str)
    ensures
        part@ == ahead_of_last(text@, c),
{
    let len: usize = text.unicode_len();
    match find_last(text, c, len) {
        Some(i) => text.substring_char(0, i),
        None => {
            let part = text.substring_char(0, 0);
            assert(part@ =~= Seq::<char>::empty());
            part
        },
    }
}

/// How often `c` occurs.
pub(crate) fn count_of(text: &str, c: char) -> (count: usize)
    ensures
        count == count_before(text@, c, text@.len() as int),
{
    let len: usize = text.unicode_len();
    let mut count: usize = 0;
    let mut n: usize = 0;
    while n < len
        invariant
            n <= len,
            len == text@.len(),
            count <= n,
            count == count_before(text@, c, n as int),
        decreases len - n,
    {
        if text.get_char(n) == c {
            count += 1;
        }
        n += 1;
    }
    count
}

/// Whether two texts are equal.
pub(crate) fn same_text(a: &str, b: &str) -> (same: bool)
    ensures
        same == (a@ == b@),
{
    a.to_owned() == b.to_owned()
}

/// The part of a text behind the last separator is what follows it, and the part
/// ahead of it what precedes it, whatever the latter holds.
pub proof fn law_parts_at_last(head: Seq<char>, c: char, tail: Seq<char>)
    requires
        !tail.contains(c),
    ensures
        behind_last(head.push(c) + tail, c) == tail,
        ahead_of_last(head.push(c) + tail, c) == head,
        last_position(head.push(c) + tail, c) == Some(head.len() as int),
{
    let text = head.push(c) + tail;
    let n = text.len() as int;
    assert forall|i: int| head.len() < i < n implies text[i] != c by {
        assert(text[i] == tail[i - head.len() - 1]);
        assert(tail.contains(tail[i - head.len() - 1]));
    }
    lemma_last_is(text, c, head.len() as int, n);
    assert(text.subrange(head.len() as int + 1, n) =~= tail);
    assert(text.subrange(0, head.len() as int) =~= head);
}

proof fn lemma_last_is(text: Seq<char>, c: char, at: int, n: int)
    requires
        0 <= at < n <= text.len(),
        text[at] == c,
        forall|i: int| at < i < n ==> text[i] != c,
    ensures
        last_before(text, c, n) == Some(at),
    decreases n,
{
    if at < n - 1 {
        lemma_last_is(text, c, at, n - 1);
    }
}

/// A text without the separator is all behind it.
pub proof fn law_no_separator(text: Seq<char>, c: char)
    requires
        !text.contains(c),
    ensures
        behind_last(text, c) == text,
        ahead_of_last(text, c) == Seq::<char>::empty(),
        last_position(text, c) is None,
{
    lemma_last_before(text, c, text.len() as int);
    if let Some(i) = last_position(text, c) {
        assert(text.contains(text[i]));
    }
}

/// Characters are counted as often as they are in the multiset of all.
pub proof fn law_characters_counted(text: Seq<char>, c: char, n: int)
    requires
        0 <= n <= text.len(),
    ensures
        count_before(text, c, n) == text.take(n).to_multiset().count(c),
    decreases n,
{
    broadcast use vstd::seq_lib::group_to_multiset_ensures;

    if n == 0 {
        assert(text.take(0) =~= Seq::empty());
        assert(!text.take(0).contains(c));
    } else {
        law_characters_counted(text, c, n - 1);
        assert(text.take(n) =~= text.take(n - 1).push(text[n - 1]));
    }
}

} // verus!
