//! Building the texts that report a failure.

use vstd::prelude::*;
use vstd::string::{StrSliceExecFns, StringExecFns};

verus! {

/// The character of a decimal digit.
pub open spec fn digit_char(d: nat) -> char {
    if d == 0 {
        '0'
    } else if d == 1 {
        '1'
    } else if d == 2 {
        '2'
    } else if d == 3 {
        '3'
    } else if d == 4 {
        '4'
    } else if d == 5 {
        '5'
    } else if d == 6 {
        '6'
    } else if d == 7 {
        '7'
    } else if d == 8 {
        '8'
    } else {
        '9'
    }
}

/// A number in decimal digits, without leading zeros.
pub open spec fn decimal_text(n: nat) -> Seq<char>
    decreases n,
{
    if n < 10 {
        seq![digit_char(n)]
    } else {
        decimal_text(n / 10).push(digit_char(n % 10))
    }
}

/// The text of one decimal digit.
fn digit_str(d: u64) -> (s: &'static str)
    requires
        d < 10,
    ensures
        s@ == seq![digit_char(d as nat)],
{
    proof {
        reveal_strlit("0");
        reveal_strlit("1");
        reveal_strlit("2");
        reveal_strlit("3");
        reveal_strlit("4");
        reveal_strlit("5");
        reveal_strlit("6");
        reveal_strlit("7");
        reveal_strlit("8");
        reveal_strlit("9");
    }
    let s = if d == 0 {
        "0"
    } else if d == 1 {
        "1"
    } else if d == 2 {
        "2"
    } else if d == 3 {
        "3"
    } else if d == 4 {
        "4"
    } else if d == 5 {
        "5"
    } else if d == 6 {
        "6"
    } else if d == 7 {
        "7"
    } else if d == 8 {
        "8"
    } else {
        "9"
    };
    assert(s@ =~= seq![digit_char(d as nat)]);
    s
}

/// Writes a number in decimal digits.
pub fn decimal(n: u64) -> (text: String)
    ensures
        text@ == decimal_text(n as nat),
    decreases n,
{
    if n < 10 {
        String::from_str(digit_str(n))
    } else {
        let mut text = decimal(n / 10);
        text.append(digit_str(n % 10));
        assert(text@ =~= decimal_text((n / 10) as nat).push(digit_char((n % 10) as nat)));
        text
    }
}

/// `count` spaces.
pub open spec fn spaces(count: nat) -> Seq<char> {
    Seq::new(count, |i: int| ' ')
}

/// `count` spaces.
pub fn padding(count: usize) -> (text: String)
    ensures
        text@ == spaces(count as nat),
{
    let mut text = String::new();
    let mut i: usize = 0;
    proof {
        reveal_strlit(" ");
    }
    while i < count
        invariant
            i <= count,
            text@ == spaces(i as nat),
            " "@ == seq![' '],
        decreases count - i,
    {
        text.append(" ");
        i += 1;
        assert(text@ =~= spaces(i as nat));
    }
    text
}

/// `text` with `pad` put in after every line feed.
pub open spec fn padded_lines(text: Seq<char>, pad: Seq<char>) -> Seq<char>
    decreases text.len(),
{
    if text.len() == 0 {
        Seq::empty()
    } else if text.last() == '\n' {
        padded_lines(text.drop_last(), pad).push('\n') + pad
    } else {
        padded_lines(text.drop_last(), pad).push(text.last())
    }
}

/// `text` with `count` spaces before each of its lines. A text without a
/// line feed is one line, and so is an empty text.
pub open spec fn indented(text: Seq<char>, count: nat) -> Seq<char> {
    spaces(count) + padded_lines(text, spaces(count))
}

/// Puts `width` spaces before every line of `data`.
pub fn indent(data: &str, width: usize) -> (text: String)
    ensures
        text@ == indented(data@, width as nat),
{
    let pad = padding(width);
    let mut text = pad.clone();
    let len = data.unicode_len();
    let mut i: usize = 0;
    assert(data@.take(0) =~= Seq::<char>::empty());
    assert(text@ =~= spaces(width as nat) + padded_lines(data@.take(0), pad@));
    while i < len
        invariant
            i <= len,
            len == data@.len(),
            pad@ == spaces(width as nat),
            text@ == spaces(width as nat) + padded_lines(data@.take(i as int), pad@),
        decreases len - i,
    {
        let c = data.get_char(i);
        let one = data.substring_char(i, i + 1);
        let ghost before = text@;
        text.append(one);
        if c == '\n' {
            text.append(pad.as_str());
        }
        proof {
            let upto = data@.take(i + 1);
            assert(upto.drop_last() =~= data@.take(i as int));
            assert(upto.last() == c);
            assert(one@ =~= seq![c]);
            if c == '\n' {
                assert(text@ =~= spaces(width as nat) + (padded_lines(
                    data@.take(i as int),
                    pad@,
                ).push('\n') + pad@));
            } else {
                assert(text@ =~= spaces(width as nat) + padded_lines(
                    data@.take(i as int),
                    pad@,
                ).push(c));
            }
        }
        i += 1;
    }
    assert(data@.take(i as int) =~= data@);
    text
}

/// `text` with spaces before it, as many as it has fewer than `width`
/// characters.
pub open spec fn right_aligned(text: Seq<char>, width: nat) -> Seq<char> {
    if text.len() >= width {
        text
    } else {
        spaces((width - text.len()) as nat) + text
    }
}

/// The causes of a failure, one in a line: its number from 0 on,
/// right-aligned in five characters, a colon, a space and the message.
pub open spec fn numbered_causes(causes: Seq<Seq<char>>) -> Seq<char>
    decreases causes.len(),
{
    if causes.len() == 0 {
        Seq::empty()
    } else {
        numbered_causes(causes.drop_last()) + right_aligned(
            decimal_text((causes.len() - 1) as nat),
            5,
        ) + ": "@ + causes.last() + "\n"@
    }
}

/// A failure and its causes as a text: the word `error`, a colon and the
/// first message; then, where there are causes, the line `caused by:` and
/// the causes, numbered.
pub open spec fn failure_text(messages: Seq<Seq<char>>) -> Seq<char> {
    if messages.len() == 0 {
        "error: "@
    } else if messages.len() == 1 {
        "error: "@ + messages[0]
    } else {
        "error: "@ + messages[0] + "\ncaused by:\n"@ + numbered_causes(messages.drop_first())
    }
}

/// The views of texts.
pub open spec fn texts(messages: Seq<String>) -> Seq<Seq<char>> {
    messages.map_values(|m: String| m@)
}

/// Renders a failure with its causes, the failure itself first.
pub fn format_error(messages: &Vec<String>) -> (text: String)
    ensures
        text@ == failure_text(texts(messages@)),
{
    let ghost all = texts(messages@);
    let mut text = String::from_str("error: ");
    if messages.len() == 0 {
        return text;
    }
    text.append(messages[0].as_str());
    assert(all[0] == messages@[0]@);
    if messages.len() == 1 {
        return text;
    }
    text.append("\ncaused by:\n");
    let ghost head = text@;
    let ghost causes = all.drop_first();
    let mut i: usize = 1;
    assert(causes.take(0) =~= Seq::<Seq<char>>::empty());
    assert(head + numbered_causes(causes.take(0)) =~= head);
    while i < messages.len()
        invariant
            1 <= i <= messages@.len(),
            all == texts(messages@),
            causes == all.drop_first(),
            text@ == head + numbered_causes(causes.take(i - 1)),
        decreases messages@.len() - i,
    {
        let number = decimal((i - 1) as u64);
        let width = number.as_str().unicode_len();
        let ghost before = text@;
        if width < 5 {
            let pad = padding(5 - width);
            text.append(pad.as_str());
        }
        text.append(number.as_str());
        text.append(": ");
        text.append(messages[i].as_str());
        text.append("\n");
        proof {
            let upto = causes.take(i as int);
            assert(upto.drop_last() =~= causes.take(i - 1));
            assert(upto.last() == messages@[i as int]@);
            assert(upto.len() == i);
            assert(text@ =~= head + (numbered_causes(causes.take(i - 1)) + right_aligned(
                decimal_text((i - 1) as nat),
                5,
            ) + ": "@ + messages@[i as int]@ + "\n"@));
        }
        i += 1;
    }
    assert(causes.take(i - 1) =~= causes);
    text
}

/// Texts put one after the other with `separator` between them.
pub open spec fn joined(parts: Seq<Seq<char>>, separator: Seq<char>) -> Seq<char>
    decreases parts.len(),
{
    if parts.len() == 0 {
        Seq::empty()
    } else if parts.len() == 1 {
        parts[0]
    } else {
        joined(parts.drop_last(), separator) + separator + parts.last()
    }
}

/// Puts the texts one after the other with `separator` between them.
pub fn join(parts: &Vec<String>, separator: &str) -> (text: String)
    ensures
        text@ == joined(texts(parts@), separator@),
{
    let ghost all = texts(parts@);
    let mut text = String::new();
    let mut i: usize = 0;
    assert(all.take(0) =~= Seq::<Seq<char>>::empty());
    while i < parts.len()
        invariant
            i <= parts@.len(),
            all == texts(parts@),
            text@ == joined(all.take(i as int), separator@),
        decreases parts@.len() - i,
    {
        if i > 0 {
            text.append(separator);
        }
        text.append(parts[i].as_str());
        proof {
            let upto = all.take(i + 1);
            assert(upto.drop_last() =~= all.take(i as int));
            assert(upto.last() == parts@[i as int]@);
            if i == 0 {
                assert(text@ =~= upto[0]);
            }
        }
        i += 1;
    }
    assert(all.take(i as int) =~= all);
    text
}

/// The index of the first `x` in `s`, or the length of `s` where there is
/// none.
pub open spec fn index_of<T>(s: Seq<T>, x: T) -> nat
    decreases s.len(),
{
    if s.len() == 0 || s[0] == x {
        0
    } else {
        1 + index_of(s.drop_first(), x)
    }
}

/// An index with `x` at it, or the end, and no `x` before it is the index of
/// the first `x`.
pub proof fn lemma_index_of<T>(s: Seq<T>, x: T, at: int)
    requires
        0 <= at <= s.len(),
        forall|i: int| 0 <= i < at ==> s[i] != x,
        at < s.len() ==> s[at] == x,
    ensures
        index_of(s, x) == at,
    decreases s.len(),
{
    if s.len() == 0 || s[0] == x {
    } else {
        let rest = s.drop_first();
        assert forall|i: int| 0 <= i < at - 1 implies rest[i] != x by {
            assert(rest[i] == s[i + 1]);
        }
        lemma_index_of(rest, x, at - 1);
    }
}

/// The index of the first `x` is at most the length.
pub proof fn lemma_index_of_bound<T>(s: Seq<T>, x: T)
    ensures
        index_of(s, x) <= s.len(),
    decreases s.len(),
{
    if s.len() == 0 || s[0] == x {
    } else {
        lemma_index_of_bound(s.drop_first(), x);
    }
}

/// Finds the first `c` in `text` from index `from` on.
pub fn find_char(text: &str, from: usize, c: char) -> (at: usize)
    requires
        from <= text@.len(),
    ensures
        from <= at <= text@.len(),
        at - from == index_of(text@.skip(from as int), c),
{
    let len = text.unicode_len();
    let mut at = from;
    while at < len && text.get_char(at) != c
        invariant
            len == text@.len(),
            from <= at <= len,
            forall|i: int| from <= i < at ==> text@[i] != c,
        decreases len - at,
    {
        at += 1;
    }
    proof {
        lemma_index_of(text@.skip(from as int), c, at - from);
    }
    at
}

} // verus!
