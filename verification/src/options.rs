//! What is asked for on the command line.

use vstd::prelude::*;

use crate::text::decimal;
use crate::text::digit;
use crate::text::same_text;

verus! {

/// What the program is to do.
#[derive(Clone, Copy, Debug, PartialEq, Eq, Structural)]
pub enum Command {
    Compress,
    Decompress,
    Info,
    Bench,
}

/// The command that a word stands for.
pub open spec fn command_named(word: Seq<char>) -> Option<Command> {
    if word == "compress"@ || word == "c"@ {
        Some(Command::Compress)
    } else if word == "decompress"@ || word == "d"@ {
        Some(Command::Decompress)
    } else if word == "info"@ || word == "i"@ {
        Some(Command::Info)
    } else if word == "bench"@ || word == "b"@ {
        Some(Command::Bench)
    } else {
        None
    }
}

/// The command that a word stands for.
pub fn command_of(word: &str) -> (command: Option<Command>)
    ensures
        command == command_named(word@),
{
    if same_text(word, "compress") || same_text(word, "c") {
        Some(Command::Compress)
    } else if same_text(word, "decompress") || same_text(word, "d") {
        Some(Command::Decompress)
    } else if same_text(word, "info") || same_text(word, "i") {
        Some(Command::Info)
    } else if same_text(word, "bench") || same_text(word, "b") {
        Some(Command::Bench)
    } else {
        None
    }
}

/// Whether a character is a decimal digit.
pub open spec fn is_digit(c: char) -> bool {
    '0' <= c <= '9'
}

/// The number that the digits of a text up to `n` stand for.
pub open spec fn digits_value(text: Seq<char>, from: int, n: int) -> nat
    decreases n - from,
{
    if n <= from {
        0
    } else {
        digits_value(text, from, n - 1) * 10 + (text[n - 1] as u32 - '0' as u32) as nat
    }
}

/// The byte that a text stands for in decimal, perhaps with a plus sign in front.
pub open spec fn byte_value(text: Seq<char>) -> Option<u8> {
    let from: int = if text.len() > 0 && text[0] == '+' {
        1
    } else {
        0
    };
    let value = digits_value(text, from, text.len() as int);
    if text.len() <= from || (exists|i: int| from <= i < text.len() && !is_digit(#[trigger] text[i])) || value
        > 255 {
        None
    } else {
        Some(value as u8)
    }
}

/// Reads a byte in decimal.
pub fn parse_byte(text: &str) -> (value: Option<u8>)
    ensures
        value == byte_value(text@),
{
    let len: usize = text.unicode_len();
    let from: usize = if len > 0 && text.get_char(0) == '+' {
        1
    } else {
        0
    };
    if len <= from {
        return None;
    }
    let mut all: bool = true;
    let mut n: usize = from;
    let mut value: u32 = 0;
    while n < len
        invariant
            from <= n <= len,
            len == text@.len(),
            all == (forall|i: int| from <= i < n ==> is_digit(#[trigger] text@[i])),
            all ==> (value == digits_value(text@, from as int, n as int) || (value == 256
                && digits_value(text@, from as int, n as int) > 255)),
            value <= 256,
        decreases len - n,
    {
        let c: char = text.get_char(n);
        let ghost before = digits_value(text@, from as int, n as int);
        if '0' <= c && c <= '9' {
            let d: u32 = (c as u32) - ('0' as u32);
            assert(digits_value(text@, from as int, n + 1) == before * 10 + d);
            if value * 10 + d > 255 {
                value = 256;
            } else {
                value = value * 10 + d;
            }
        } else {
            all = false;
            assert(!is_digit(text@[n as int]));
        }
        n += 1;
    }
    if all && value <= 255 {
        Some(value as u8)
    } else {
        None
    }
}

/// How a file is to be compressed.
#[derive(Clone, Copy, Debug, PartialEq, Eq, Structural)]
pub struct Options {
    pub quality: u8,
    pub channels: u8,
}

/// The value of the option at `i`: what the word behind it stands for, or else the
/// usual value.
pub open spec fn option_value(words: Seq<Seq<char>>, i: int, usual: u8) -> u8 {
    if i + 1 < words.len() {
        match byte_value(words[i + 1]) {
            Some(v) => v,
            None => usual,
        }
    } else {
        usual
    }
}

/// The options that the words from `i` on give, starting from `options`. Other words
/// are passed over.
pub open spec fn options_from(words: Seq<Seq<char>>, i: int, options: Options) -> Options
    decreases words.len() - i,
{
    if i >= words.len() {
        options
    } else if words[i] == "--quality"@ {
        let quality = option_value(words, i, 100);
        if i + 2 > words.len() {
            Options { quality, ..options }
        } else {
            options_from(words, i + 2, Options { quality, ..options })
        }
    } else if words[i] == "--channels"@ {
        let channels = option_value(words, i, 1);
        if i + 2 > words.len() {
            Options { channels, ..options }
        } else {
            options_from(words, i + 2, Options { channels, ..options })
        }
    } else {
        options_from(words, i + 1, options)
    }
}

/// The texts of words.
pub open spec fn words_of(words: Seq<String>) -> Seq<Seq<char>> {
    Seq::new(words.len(), |i: int| words[i]@)
}

/// Reads the value of the option at `i`.
fn read_value(words: &[String], i: usize, usual: u8) -> (value: u8)
    requires
        i < words@.len(),
    ensures
        value == option_value(words_of(words@), i as int, usual),
{
    if words.len() - i > 1 {
        match parse_byte(words[i + 1].as_str()) {
            Some(v) => v,
            None => usual,
        }
    } else {
        usual
    }
}

/// Reads the options behind the names of the input and of the output.
pub fn parse_options(words: &[String]) -> (options: Options)
    ensures
        options == options_from(words_of(words@), 2, (Options { quality: 100, channels: 1 })),
{
    let ghost texts = words_of(words@);
    let mut options = Options { quality: 100, channels: 1 };
    let total: usize = words.len();
    if total < 2 {
        return options;
    }
    let mut i: usize = 2;
    while i < total
        invariant
            i <= total,
            total == words@.len(),
            texts == words_of(words@),
            options_from(texts, 2, (Options { quality: 100, channels: 1 })) == options_from(
                texts,
                i as int,
                options,
            ),
        decreases total - i,
    {
        let here = read_option(words, i, options);
        options = here.0;
        i = here.1;
    }
    options
}

/// Reads one word or option at `i`; gives the options, and where to go on.
fn read_option(words: &[String], i: usize, options: Options) -> (r: (Options, usize))
    requires
        i < words@.len(),
    ensures
        i < r.1 <= words@.len(),
        options_from(words_of(words@), i as int, options) == options_from(
            words_of(words@),
            r.1 as int,
            r.0,
        ),
{
    let total: usize = words.len();
    if same_text(words[i].as_str(), "--quality") {
        let quality: u8 = read_value(words, i, 100);
        let next: usize = if total - i > 1 {
            i + 2
        } else {
            total
        };
        (Options { quality, channels: options.channels }, next)
    } else if same_text(words[i].as_str(), "--channels") {
        let channels: u8 = read_value(words, i, 1);
        let next: usize = if total - i > 1 {
            i + 2
        } else {
            total
        };
        (Options { quality: options.quality, channels }, next)
    } else {
        (options, i + 1)
    }
}

/// Whether a word is the name of an option.
pub open spec fn names_option(word: Seq<char>) -> bool {
    word == "--quality"@ || word == "--channels"@
}

proof fn lemma_names_differ()
    ensures
        "--quality"@ != "--channels"@,
        byte_value("--quality"@) is None,
        byte_value("--channels"@) is None,
{
    reveal_strlit("--quality");
    reveal_strlit("--channels");
    assert("--quality"@[2] == 'q' && "--channels"@[2] == 'c');
    assert(!is_digit("--quality"@[0]));
    assert(!is_digit("--channels"@[0]));
}

proof fn lemma_others_passed_over(words: Seq<Seq<char>>, i: int, j: int, options: Options)
    requires
        0 <= i <= j <= words.len(),
        forall|k: int| i <= k < j ==> !names_option(#[trigger] words[k]),
    ensures
        options_from(words, i, options) == options_from(words, j, options),
    decreases j - i,
{
    if i < j {
        assert(!names_option(words[i]));
        lemma_others_passed_over(words, i + 1, j, options);
    }
}

/// Where each of the two options stands once, with a value that can be read, the
/// result holds both values, whichever of them stands first and whatever else stands
/// around them.
pub proof fn law_options_in_any_order(words: Seq<Seq<char>>, p: int, q: int, usual: Options)
    requires
        2 <= p < words.len() - 1,
        2 <= q < words.len() - 1,
        words[p] == "--quality"@,
        words[q] == "--channels"@,
        byte_value(words[p + 1]) is Some,
        byte_value(words[q + 1]) is Some,
        forall|k: int|
            2 <= k < words.len() && k != p && k != q ==> #[trigger] words[k] != "--quality"@
                && words[k] != "--channels"@,
    ensures
        options_from(words, 2, usual).quality == byte_value(words[p + 1])->0,
        options_from(words, 2, usual).channels == byte_value(words[q + 1])->0,
{
    lemma_names_differ();
    let n = words.len() as int;
    let quality = byte_value(words[p + 1])->0;
    let channels = byte_value(words[q + 1])->0;
    let both = Options { quality, channels };
    if p < q {
        assert(p + 2 <= q);
        let one = Options { quality, ..usual };
        lemma_others_passed_over(words, 2, p, usual);
        assert(options_from(words, p, usual) == options_from(words, p + 2, one));
        lemma_others_passed_over(words, p + 2, q, one);
        assert(options_from(words, q, one) == options_from(words, q + 2, both));
        lemma_others_passed_over(words, q + 2, n, both);
    } else {
        assert(q + 2 <= p);
        let one = Options { channels, ..usual };
        lemma_others_passed_over(words, 2, q, usual);
        assert(options_from(words, q, usual) == options_from(words, q + 2, one));
        lemma_others_passed_over(words, q + 2, p, one);
        assert(options_from(words, p, one) == options_from(words, p + 2, both));
        lemma_others_passed_over(words, p + 2, n, both);
    }
}

/// Without an option, what was to be done without one is done.
pub proof fn law_no_options(words: Seq<Seq<char>>, usual: Options)
    requires
        forall|k: int|
            2 <= k < words.len() ==> #[trigger] words[k] != "--quality"@ && words[k]
                != "--channels"@,
    ensures
        options_from(words, 2, usual) == usual,
{
    if words.len() > 2 {
        lemma_others_passed_over(words, 2, words.len() as int, usual);
    }
}

proof fn lemma_read_first(words: Seq<Seq<char>>, more: Seq<Seq<char>>, i: int, options: Options)
    requires
        0 <= i <= words.len(),
        i < words.len() ==> !names_option(words.last()),
    ensures
        options_from(words + more, i, options) == options_from(
            words + more,
            words.len() as int,
            options_from(words, i, options),
        ),
    decreases words.len() - i,
{
    let all = words + more;
    if i < words.len() {
        assert(all[i] == words[i]);
        if names_option(words[i]) {
            assert(i < words.len() - 1);
            assert(all[i + 1] == words[i + 1]);
            if words[i] == "--quality"@ {
                let quality = option_value(words, i, 100);
                lemma_read_first(words, more, i + 2, Options { quality, ..options });
            } else {
                let channels = option_value(words, i, 1);
                lemma_read_first(words, more, i + 2, Options { channels, ..options });
            }
        } else {
            lemma_read_first(words, more, i + 1, options);
        }
    }
}

/// An option at the end replaces what was given before it, and leaves the other one
/// as it was. A value that cannot be read, or is missing, stands for the usual one:
/// full quality, and one channel.
pub proof fn law_last_option_holds(words: Seq<Seq<char>>, value: Seq<char>, usual: Options)
    requires
        words.len() >= 2,
        words.len() > 2 ==> words.last() != "--quality"@ && words.last() != "--channels"@,
    ensures
        ({
            let before = options_from(words, 2, usual);
            let read = byte_value(value);
            &&& options_from(words.push("--quality"@).push(value), 2, usual) == (Options {
                quality: if read is Some {
                    read->0
                } else {
                    100
                },
                channels: before.channels,
            })
            &&& options_from(words.push("--channels"@).push(value), 2, usual) == (Options {
                quality: before.quality,
                channels: if read is Some {
                    read->0
                } else {
                    1
                },
            })
            &&& options_from(words.push("--quality"@), 2, usual) == (Options {
                quality: 100,
                channels: before.channels,
            })
            &&& options_from(words.push("--channels"@), 2, usual) == (Options {
                quality: before.quality,
                channels: 1,
            })
            &&& value != "--quality"@ && value != "--channels"@ ==> options_from(
                words.push(value),
                2,
                usual,
            ) == before
        }),
{
    lemma_names_differ();
    let n = words.len() as int;
    let q = seq!["--quality"@, value];
    let c = seq!["--channels"@, value];
    let q1 = seq!["--quality"@];
    let c1 = seq!["--channels"@];
    let v1 = seq![value];
    assert(words.push("--quality"@).push(value) =~= words + q);
    assert(words.push("--channels"@).push(value) =~= words + c);
    assert(words.push("--quality"@) =~= words + q1);
    assert(words.push("--channels"@) =~= words + c1);
    assert(words.push(value) =~= words + v1);
    lemma_read_first(words, q, 2, usual);
    lemma_read_first(words, c, 2, usual);
    lemma_read_first(words, q1, 2, usual);
    lemma_read_first(words, c1, 2, usual);
    lemma_read_first(words, v1, 2, usual);
    assert((words + q)[n] == "--quality"@ && (words + q)[n + 1] == value);
    assert((words + c)[n] == "--channels"@ && (words + c)[n + 1] == value);
    assert((words + q1)[n] == "--quality"@);
    assert((words + c1)[n] == "--channels"@);
    assert((words + v1)[n] == value);
    reveal_with_fuel(options_from, 2);
}

proof fn lemma_digits_prefix(a: Seq<char>, b: Seq<char>, from: int, n: int)
    requires
        0 <= from,
        n <= a.len(),
        n <= b.len(),
        forall|i: int| from <= i < n ==> #[trigger] a[i] == b[i],
    ensures
        digits_value(a, from, n) == digits_value(b, from, n),
    decreases n - from,
{
    if n > from {
        lemma_digits_prefix(a, b, from, n - 1);
        assert(a[n - 1] == b[n - 1]);
    }
}

/// One more digit multiplies what a text stands for by ten and adds the digit; what
/// then exceeds a byte stands for nothing.
pub proof fn law_byte_grows_by_digits(text: Seq<char>, d: nat)
    requires
        d < 10,
    ensures
        byte_value(seq![digit(d)]) == Some(d as u8),
        byte_value(seq!['+', digit(d)]) == Some(d as u8),
        byte_value(text) matches Some(v) ==> byte_value(text.push(digit(d))) == (if 10 * v + d
            <= 255 {
            Some((10 * v + d) as u8)
        } else {
            None
        }),
{
    let c = digit(d);
    assert(is_digit(c) && c as u32 - '0' as u32 == d);
    let one = seq![c];
    let plus = seq!['+', c];
    assert(digits_value(one, 0, 0) == 0);
    assert(digits_value(one, 0, 1) == d);
    assert(digits_value(plus, 1, 1) == 0);
    assert(digits_value(plus, 1, 2) == d);
    assert(plus[0] == '+');
    assert(one[0] == c);
    if byte_value(text) is Some {
        let longer = text.push(c);
        let n = text.len() as int;
        let from: int = if text[0] == '+' {
            1
        } else {
            0
        };
        assert(longer[0] == text[0]);
        lemma_digits_prefix(longer, text, from, n);
        assert(digits_value(longer, from, n + 1) == digits_value(text, from, n) * 10 + d);
        assert forall|i: int| from <= i < n + 1 implies is_digit(#[trigger] longer[i]) by {
            if i < n {
                assert(is_digit(text[i]));
            }
        }
    }
}

/// A text with a character that is no digit stands for no byte; only a plus sign in
/// front of digits is let through. Nor does a text without digits.
pub proof fn law_byte_refused(text: Seq<char>, i: int)
    requires
        0 <= i < text.len(),
        text[i] < '0' || text[i] > '9',
        i > 0 || text[i] != '+',
    ensures
        byte_value(text) is None,
        byte_value(Seq::empty()) is None,
        byte_value(seq!['+']) is None,
{
    assert(!is_digit(text[i]));
}

proof fn lemma_decimal_value(n: nat)
    ensures
        digits_value(decimal(n), 0, decimal(n).len() as int) == n,
        decimal(n).len() >= 1,
        forall|i: int| 0 <= i < decimal(n).len() ==> is_digit(#[trigger] decimal(n)[i]),
        n > 0 ==> decimal(n)[0] != '0',
    decreases n,
{
    let d = n % 10;
    assert(is_digit(digit(d)) && digit(d) as u32 - '0' as u32 == d);
    if n < 10 {
        assert(decimal(n) =~= seq![digit(n)]);
        assert(digits_value(decimal(n), 0, 0) == 0);
    } else {
        let head = decimal(n / 10);
        lemma_decimal_value(n / 10);
        lemma_digits_prefix(decimal(n), head, 0, head.len() as int);
        assert(decimal(n)[0] == head[0]);
        assert forall|i: int| 0 <= i < decimal(n).len() implies is_digit(#[trigger] decimal(n)[i]) by {
            if i < head.len() {
                assert(is_digit(head[i]));
            }
        }
    }
}

/// A number written in decimal has digits only, no needless zero in front, and is read
/// back; one that exceeds a byte is not.
pub proof fn law_decimal_read_back(n: nat)
    ensures
        byte_value(decimal(n)) == (if n <= 255 {
            Some(n as u8)
        } else {
            None
        }),
        digits_value(decimal(n), 0, decimal(n).len() as int) == n,
        decimal(n)[0] == '0' ==> n == 0,
        n == 0 ==> decimal(n).len() == 1,
        forall|i: int| 0 <= i < decimal(n).len() ==> '0' <= #[trigger] decimal(n)[i] <= '9',
{
    lemma_decimal_value(n);
    assert(is_digit(decimal(n)[0]));
}

/// A command is called by its name or by its first letter, and by nothing else.
pub proof fn law_commands(word: Seq<char>)
    ensures
        command_named(word) == Some(Command::Compress) <==> word == "compress"@ || word == "c"@,
        command_named(word) == Some(Command::Decompress) <==> word == "decompress"@ || word == "d"@,
        command_named(word) == Some(Command::Info) <==> word == "info"@ || word == "i"@,
        command_named(word) == Some(Command::Bench) <==> word == "bench"@ || word == "b"@,
{
    reveal_strlit("compress");
    reveal_strlit("c");
    reveal_strlit("decompress");
    reveal_strlit("d");
    reveal_strlit("info");
    reveal_strlit("i");
    reveal_strlit("bench");
    reveal_strlit("b");
    assert("c"@[0] == 'c' && "d"@[0] == 'd' && "i"@[0] == 'i' && "b"@[0] == 'b');
    assert("c"@.len() == 1 && "d"@.len() == 1 && "i"@.len() == 1 && "b"@.len() == 1);
    assert("compress"@.len() == 8 && "decompress"@.len() == 10 && "info"@.len() == 4 && "bench"@.len()
        == 5);
}

/// Words are read as they are, in order.
pub proof fn law_words_taken(words: Seq<String>)
    ensures
        words_of(words).len() == words.len(),
        forall|i: int| 0 <= i < words.len() ==> #[trigger] words_of(words)[i] == words[i]@,
{
}

} // verus!
