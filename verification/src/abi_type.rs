//! Names of types in contract interfaces, and on which of them reading goes wrong.
//!
//! Names are read by `ethabi`. It takes the number of characters in the name of a tuple or an
//! array for that of its bytes, and expects each array to have been opened. Where that does not
//! hold it may cut a name in the middle of a character or outside of it, which is a panic. What is
//! said here of a name goes along with the reader as far as its cuts depend on it.

use vstd::prelude::*;

verus! {

/// What comes of reading the name of a type.
#[derive(Clone, Copy, Debug, PartialEq, Eq, Structural)]
pub enum Outcome {
    /// The reader cuts the name where it cannot be cut, or calls itself too often.
    Broken,
    /// The reader says that there is no such type.
    Refused,
    /// The reader gives a type.
    Read,
}

/// How often the reader may call itself for one name. It takes close to three kibibytes of stack
/// each time, of the two mebibytes that a thread has by default.
pub const MAX_CALLS: usize = 512;

/// How many bytes a character has in UTF-8.
pub open spec fn width(c: char) -> nat {
    if '\u{80}' > c {
        1
    } else if '\u{800}' > c {
        2
    } else if '\u{10000}' > c {
        3
    } else {
        4
    }
}

/// How many bytes a text has in UTF-8.
pub open spec fn bytes(text: Seq<char>) -> nat
    decreases text.len(),
{
    if text.len() == 0 {
        0
    } else {
        bytes(text.drop_last()) + width(text.last())
    }
}

/// How many characters of a text come before a byte, unless it is in the middle of one.
pub open spec fn chars_before(text: Seq<char>, byte: int) -> Option<int>
    decreases text.len(),
{
    if bytes(text) == byte {
        Some(text.len() as int)
    } else if text.len() == 0 {
        None
    } else {
        chars_before(text.drop_last(), byte)
    }
}

/// What is between two bytes of a text, where it can be cut there.
pub open spec fn cut(text: Seq<char>, from: int, to: int) -> Option<Seq<char>> {
    match (chars_before(text, from), chars_before(text, to)) {
        (Some(m), Some(n)) => if m <= n {
            Some(text.subrange(m, n))
        } else {
            None
        },
        _ => None,
    }
}

/// The value of decimal digits.
pub open spec fn value(digits: Seq<char>) -> nat
    decreases digits.len(),
{
    if digits.len() == 0 {
        0
    } else {
        value(digits.drop_last()) * 10 + (digits.last() as nat - '0' as nat) as nat
    }
}

/// The digits of a number, which may have a plus sign.
pub open spec fn unsigned(text: Seq<char>) -> Seq<char> {
    if text.len() > 1 && text[0] == '+' {
        text.skip(1)
    } else {
        text
    }
}

/// Whether a text reads as a `usize`.
pub open spec fn is_number(text: Seq<char>) -> bool {
    let digits = unsigned(text);
    &&& digits.len() > 0
    &&& forall|i: int| 0 <= i < digits.len() ==> '0' <= #[trigger] digits[i] <= '9'
    &&& value(digits) <= usize::MAX
}

/// Whether a name is a stem with something behind it.
pub open spec fn extends(name: Seq<char>, stem: Seq<char>) -> bool {
    stem.len() < name.len() && name.take(stem.len() as int) == stem
}

/// What comes of a name that is neither that of a tuple nor that of an array: integers and bytes
/// have their size behind them, and any name that is not known is that of an enum.
pub open spec fn plain_outcome(name: Seq<char>) -> Outcome {
    let sized = if extends(name, "int"@) {
        Some(name.skip("int"@.len() as int))
    } else if extends(name, "uint"@) {
        Some(name.skip("uint"@.len() as int))
    } else if extends(name, "bytes"@) {
        Some(name.skip("bytes"@.len() as int))
    } else {
        None
    };
    match sized {
        Some(size) => if is_number(size) {
            Outcome::Read
        } else {
            Outcome::Refused
        },
        None => Outcome::Read,
    }
}

/// What is between the last opening bracket of an array's name and its end. Where there is no
/// such bracket, all of it.
pub open spec fn array_size(name: Seq<char>) -> Seq<char> {
    let front = name.drop_last();
    match front.index_of_last('[') {
        Some(i) => front.skip(i + 1),
        None => front,
    }
}

/// Where the item of a tuple ends that goes on at `i`.
pub open spec fn item_end(name: Seq<char>, i: int) -> int
    decreases name.len() - i,
{
    if i >= name.len() || name[i] == ',' || name[i] == ')' {
        i
    } else {
        item_end(name, i + 1)
    }
}

/// An item ends no earlier than where it goes on.
pub proof fn lemma_item_end(name: Seq<char>, i: int)
    ensures
        item_end(name, i) >= i,
        i <= name.len() ==> item_end(name, i) <= name.len(),
    decreases name.len() - i,
{
    if !(i >= name.len() || name[i] == ',' || name[i] == ')') {
        lemma_item_end(name, i + 1);
    }
}

/// What comes of the name of a tuple from its character at `pos` on, with the number of
/// parentheses that are open, the place of the last one that opened, and the place where the
/// current item starts. Places are numbers of characters, but the name is cut at bytes.
///
/// Items are read at commas and where the tuple closes. Where an inner tuple closes, it is read
/// with what follows it up to the next comma or closing parenthesis.
pub open spec fn tuple_outcome(
    name: Seq<char>,
    pos: int,
    nested: int,
    open: int,
    item: int,
    calls: nat,
) -> Outcome
    decreases calls, name.len() - pos,
{
    if calls == 0 {
        Outcome::Broken
    } else if pos >= name.len() {
        Outcome::Read
    } else if name[pos] == '(' {
        let start = if nested > 0 {
            pos + 1
        } else {
            item
        };
        tuple_outcome(name, pos + 1, nested + 1, pos, start, calls)
    } else if name[pos] == ')' {
        if nested <= 0 {
            Outcome::Refused
        } else {
            match cut(name, item, pos) {
                None => Outcome::Broken,
                Some(text) => if text.len() == 0 {
                    tuple_outcome(name, pos + 1, nested - 1, open, pos + 1, calls)
                } else if nested == 1 {
                    match outcome(text, (calls - 1) as nat) {
                        Outcome::Read => tuple_outcome(
                            name,
                            pos + 1,
                            nested - 1,
                            open,
                            pos + 1,
                            calls,
                        ),
                        other => other,
                    }
                } else {
                    proof {
                        lemma_item_end(name, pos + 1);
                    }
                    let end = item_end(name, pos + 1);
                    match cut(name, open, end) {
                        None => Outcome::Broken,
                        Some(inner) => match outcome(inner, (calls - 1) as nat) {
                            Outcome::Read => tuple_outcome(
                                name,
                                end,
                                nested - 1,
                                open,
                                end,
                                calls,
                            ),
                            other => other,
                        },
                    }
                },
            }
        }
    } else if name[pos] == ',' {
        match cut(name, item, pos) {
            None => Outcome::Broken,
            Some(text) => if text.len() == 0 {
                tuple_outcome(name, pos + 1, nested, open, pos + 1, calls)
            } else if nested > 0 {
                match outcome(text, (calls - 1) as nat) {
                    Outcome::Read => tuple_outcome(name, pos + 1, nested, open, pos + 1, calls),
                    other => other,
                }
            } else {
                tuple_outcome(name, pos + 1, nested, open, item, calls)
            },
        }
    } else {
        tuple_outcome(name, pos + 1, nested, open, item, calls)
    }
}

/// What comes of reading a name with so many calls of the reader at most.
pub open spec fn outcome(name: Seq<char>, calls: nat) -> Outcome
    decreases calls, name.len() + 1,
{
    if calls == 0 {
        Outcome::Broken
    } else if name.len() > 0 && name.last() == ')' {
        if name[0] == '(' {
            tuple_outcome(name, 0, 0, 0, 1, calls)
        } else {
            Outcome::Refused
        }
    } else if name.len() > 0 && name.last() == ']' {
        let size = array_size(name);
        if size.len() > 0 && !is_number(size) {
            Outcome::Refused
        } else {
            match cut(name, 0, name.len() - bytes(size) - 2) {
                Some(inner) => outcome(inner, (calls - 1) as nat),
                None => Outcome::Broken,
            }
        }
    } else {
        plain_outcome(name)
    }
}

/// Whether the name of a type can be given to the reader.
pub open spec fn is_type_name(name: Seq<char>) -> bool {
    outcome(name, MAX_CALLS as nat) != Outcome::Broken
}

/// The bytes of the start of a text are no more than those of the text.
proof fn lemma_bytes_take(text: Seq<char>, m: int)
    requires
        0 <= m <= text.len(),
    ensures
        bytes(text.take(m)) + (text.len() - m) <= bytes(text),
    decreases text.len() - m,
{
    if m < text.len() {
        lemma_bytes_take(text, m + 1);
        assert(text.take(m + 1).drop_last() =~= text.take(m));
    } else {
        assert(text.take(m) =~= text);
    }
}

/// The characters before a byte are those that have so many bytes.
proof fn lemma_chars_before(text: Seq<char>, byte: int, m: int)
    requires
        0 <= m <= text.len(),
        bytes(text.take(m)) == byte,
    ensures
        chars_before(text, byte) == Some(m),
    decreases text.len(),
{
    lemma_bytes_take(text, m);
    if m < text.len() {
        assert(text.drop_last().take(m) =~= text.take(m));
        lemma_chars_before(text.drop_last(), byte, m);
    } else {
        assert(text.take(m) =~= text);
    }
}

/// There are no characters before a byte that no start of the text has for its number of bytes.
proof fn lemma_no_chars_before(text: Seq<char>, byte: int)
    requires
        forall|m: int| 0 <= m <= text.len() ==> bytes(#[trigger] text.take(m)) != byte,
    ensures
        chars_before(text, byte) is None,
    decreases text.len(),
{
    assert(text.take(text.len() as int) =~= text);
    if text.len() > 0 {
        let front = text.drop_last();
        assert forall|m: int| 0 <= m <= front.len() implies bytes(#[trigger] front.take(m))
            != byte by {
            assert(front.take(m) =~= text.take(m));
        }
        lemma_no_chars_before(front, byte);
    }
}

/// How many characters of a text come before a byte, unless it is in the middle of one.
fn count_chars(text: &Vec<char>, byte: usize) -> (count: Option<usize>)
    ensures
        match count {
            Some(m) => m <= text@.len() && chars_before(text@, byte as int) == Some(m as int),
            None => chars_before(text@, byte as int) is None,
        },
{
    let mut sum: usize = 0;
    let mut m: usize = 0;
    assert(text@.take(0) =~= Seq::empty());
    while m < text.len() && sum < byte
        invariant
            m <= text@.len(),
            sum == bytes(text@.take(m as int)),
            sum <= byte,
            forall|k: int| 0 <= k < m ==> bytes(#[trigger] text@.take(k)) < byte,
        decreases text@.len() - m,
    {
        let c = text[m];
        assert(text@.take(m + 1).drop_last() =~= text@.take(m as int));
        let size: usize = if '\u{80}' > c {
            1
        } else if '\u{800}' > c {
            2
        } else if '\u{10000}' > c {
            3
        } else {
            4
        };
        if byte - sum < size {
            proof {
                assert forall|k: int| 0 <= k <= text@.len() implies bytes(#[trigger] text@.take(k))
                    != byte by {
                    if k > m {
                        lemma_bytes_take(text@.take(k), m + 1);
                        assert(text@.take(k).take(m + 1) =~= text@.take(m + 1));
                    }
                }
                lemma_no_chars_before(text@, byte as int);
            }
            return None;
        }
        sum = sum + size;
        m = m + 1;
    }
    if sum == byte {
        proof {
            lemma_chars_before(text@, byte as int, m as int);
        }
        Some(m)
    } else {
        proof {
            assert forall|k: int| 0 <= k <= text@.len() implies bytes(#[trigger] text@.take(k))
                != byte by {}
            lemma_no_chars_before(text@, byte as int);
        }
        None
    }
}

/// What is between two bytes of a text, where it can be cut there.
fn cut_out(text: &Vec<char>, from: usize, to: usize) -> (part: Option<Vec<char>>)
    ensures
        match part {
            Some(part) => cut(text@, from as int, to as int) == Some(part@),
            None => cut(text@, from as int, to as int) is None,
        },
{
    match (count_chars(text, from), count_chars(text, to)) {
        (Some(m), Some(n)) => if m <= n {
            Some(copy_range(text, m, n))
        } else {
            None
        },
        _ => None,
    }
}

/// The characters between two places.
fn copy_range(text: &Vec<char>, m: usize, n: usize) -> (part: Vec<char>)
    requires
        m <= n <= text@.len(),
    ensures
        part@ == text@.subrange(m as int, n as int),
{
    let mut part: Vec<char> = Vec::new();
    for i in m..n
        invariant
            n <= text@.len(),
            m <= i,
            part@ == text@.subrange(m as int, i as int),
    {
        assert(text@.subrange(m as int, i + 1) =~= text@.subrange(m as int, i as int).push(
            text@[i as int],
        ));
        part.push(text[i]);
    }
    part
}

/// The value of the first digits is no more than that of all.
proof fn lemma_value_take(digits: Seq<char>, m: int)
    requires
        0 <= m <= digits.len(),
    ensures
        value(digits.take(m)) <= value(digits),
    decreases digits.len() - m,
{
    if m < digits.len() {
        lemma_value_take(digits, m + 1);
        assert(digits.take(m + 1).drop_last() =~= digits.take(m));
    } else {
        assert(digits.take(m) =~= digits);
    }
}

/// Whether a text reads as a `usize`.
fn check_number(text: &Vec<char>) -> (b: bool)
    ensures
        b == is_number(text@),
{
    let start: usize = if text.len() > 1 && text[0] == '+' {
        1
    } else {
        0
    };
    let ghost digits = unsigned(text@);
    assert(digits =~= text@.skip(start as int));
    if text.len() == 0 {
        return false;
    }
    let mut sum: usize = 0;
    assert(digits.take(0) =~= Seq::empty());
    for i in start..text.len()
        invariant
            start <= i,
            start <= 1,
            digits == unsigned(text@),
            digits == text@.skip(start as int),
            start < text@.len(),
            forall|k: int| 0 <= k < i - start ==> '0' <= #[trigger] digits[k] <= '9',
            sum == value(digits.take(i - start)),
    {
        let c = text[i];
        let ghost n = i - start;
        assert(digits[n] == c);
        if !('0' <= c && c <= '9') {
            return false;
        }
        let digit: usize = c as usize - '0' as usize;
        proof {
            assert(digits.take(n + 1).drop_last() =~= digits.take(n));
            lemma_value_take(digits, n + 1);
        }
        match sum.checked_mul(10) {
            Some(tens) => match tens.checked_add(digit) {
                Some(more) => {
                    sum = more;
                },
                None => {
                    return false;
                },
            },
            None => {
                return false;
            },
        }
    }
    assert(digits.take(digits.len() as int) =~= digits);
    true
}

/// The characters of a text.
fn characters(text: &str) -> (chars: Vec<char>)
    ensures
        chars@ == text@,
{
    let mut chars: Vec<char> = Vec::new();
    for c in it: text.chars()
        invariant
            it.seq() == text@,
            chars@ == text@.take(it.index() as int),
    {
        assert(text@.take(it.index() + 1) =~= text@.take(it.index() as int).push(c));
        chars.push(c);
    }
    assert(text@.take(text@.len() as int) =~= text@);
    chars
}

/// What is behind a stem in a name that extends it.
fn behind_stem(name: &Vec<char>, stem: &str) -> (rest: Option<Vec<char>>)
    ensures
        match rest {
            Some(rest) => extends(name@, stem@) && rest@ == name@.skip(stem@.len() as int),
            None => !extends(name@, stem@),
        },
{
    let letters = characters(stem);
    let n: usize = letters.len();
    if n >= name.len() {
        return None;
    }
    for i in 0..n
        invariant
            letters@ == stem@,
            n == stem@.len(),
            n < name@.len(),
            forall|k: int| 0 <= k < i ==> name@[k] == #[trigger] stem@[k],
    {
        if name[i] != letters[i] {
            assert(name@.take(n as int)[i as int] != stem@[i as int]);
            return None;
        }
    }
    assert(name@.take(n as int) =~= stem@);
    assert(name@.skip(n as int) =~= name@.subrange(n as int, name@.len() as int));
    Some(copy_range(name, n, name.len()))
}

/// What comes of a name that is neither that of a tuple nor that of an array.
fn read_plain(name: &Vec<char>) -> (result: Outcome)
    ensures
        result == plain_outcome(name@),
{
    let size = match behind_stem(name, "int") {
        Some(size) => size,
        None => match behind_stem(name, "uint") {
            Some(size) => size,
            None => match behind_stem(name, "bytes") {
                Some(size) => size,
                None => {
                    return Outcome::Read;
                },
            },
        },
    };
    if check_number(&size) {
        Outcome::Read
    } else {
        Outcome::Refused
    }
}

/// What is between the last opening bracket of an array's name and its end.
fn read_size(name: &Vec<char>) -> (size: Vec<char>)
    requires
        name@.len() > 0,
    ensures
        size@ == array_size(name@),
        size@.len() < name@.len(),
{
    let ghost front = name@.drop_last();
    let end: usize = name.len() - 1;
    let mut start: usize = end;
    while start > 0 && name[start - 1] != '['
        invariant
            start <= end,
            end == name@.len() - 1,
            front == name@.drop_last(),
            forall|k: int| start <= k < end ==> front[k] != '[',
        decreases start,
    {
        start = start - 1;
    }
    proof {
        front.index_of_last_ensures('[');
        if start > 0 {
            assert(front[start - 1] == '[');
            assert(front.contains('['));
            assert(front.index_of_last('[') == Some(start - 1));
            assert(front.skip(start as int) =~= name@.subrange(start as int, end as int));
        } else {
            assert(!front.contains('['));
            assert(front =~= name@.subrange(0, end as int));
        }
    }
    copy_range(name, start, end)
}

/// How many bytes digits have: one each.
proof fn lemma_number_bytes(text: Seq<char>)
    requires
        is_number(text) || text.len() == 0,
    ensures
        bytes(text) == text.len(),
{
    assert forall|i: int| 0 <= i < text.len() implies #[trigger] text[i] < '\u{80}' by {
        if i > 0 || unsigned(text) == text {
            let digits = unsigned(text);
            let k = if unsigned(text) == text {
                i
            } else {
                i - 1
            };
            assert('0' <= digits[k] <= '9');
        }
    }
    lemma_ascii_bytes(text);
}

/// How many bytes a text in ASCII has: one for each character.
proof fn lemma_ascii_bytes(text: Seq<char>)
    requires
        forall|i: int| 0 <= i < text.len() ==> #[trigger] text[i] < '\u{80}',
    ensures
        bytes(text) == text.len(),
    decreases text.len(),
{
    if text.len() > 0 {
        let front = text.drop_last();
        assert forall|i: int| 0 <= i < front.len() implies #[trigger] front[i] < '\u{80}' by {
            assert(front[i] == text[i]);
        }
        lemma_ascii_bytes(front);
        assert(text[text.len() - 1] < '\u{80}');
    }
}

/// A text ends no earlier than at its own start.
proof fn lemma_negative_cut(text: Seq<char>, from: int, to: int)
    requires
        to < 0,
    ensures
        cut(text, from, to) is None,
{
    lemma_no_chars_before(text, to);
}

/// Where the item of a tuple ends that goes on at `i`.
fn find_item_end(name: &Vec<char>, i: usize) -> (end: usize)
    requires
        i <= name@.len(),
    ensures
        end == item_end(name@, i as int),
        i <= end <= name@.len(),
{
    let mut end: usize = i;
    while end < name.len() && name[end] != ',' && name[end] != ')'
        invariant
            i <= end <= name@.len(),
            item_end(name@, end as int) == item_end(name@, i as int),
        decreases name@.len() - end,
    {
        end = end + 1;
    }
    end
}

/// What comes of reading the name of a tuple with so many calls of the reader at most.
fn read_tuple(name: &Vec<char>, calls: usize) -> (result: Outcome)
    requires
        calls > 0,
    ensures
        result == tuple_outcome(name@, 0, 0, 0, 1, calls as nat),
    decreases calls, 0nat,
{
    let mut pos: usize = 0;
    let mut nested: usize = 0;
    let mut open: usize = 0;
    let mut item: usize = 1;
    while pos < name.len()
        invariant
            calls > 0,
            pos <= name@.len(),
            nested <= pos,
            tuple_outcome(name@, 0, 0, 0, 1, calls as nat) == tuple_outcome(
                name@,
                pos as int,
                nested as int,
                open as int,
                item as int,
                calls as nat,
            ),
        decreases name@.len() - pos,
    {
        let c = name[pos];
        if c == '(' {
            if nested > 0 {
                item = pos + 1;
            }
            open = pos;
            nested = nested + 1;
            pos = pos + 1;
        } else if c == ')' {
            if nested == 0 {
                return Outcome::Refused;
            }
            let text = match cut_out(name, item, pos) {
                Some(text) => text,
                None => {
                    return Outcome::Broken;
                },
            };
            let mut end: usize = pos + 1;
            if text.len() > 0 {
                let part = if nested == 1 {
                    text
                } else {
                    end = find_item_end(name, pos + 1);
                    match cut_out(name, open, end) {
                        Some(inner) => inner,
                        None => {
                            return Outcome::Broken;
                        },
                    }
                };
                let read = read_name(&part, calls - 1);
                if read != Outcome::Read {
                    return read;
                }
            }
            nested = nested - 1;
            item = end;
            pos = end;
        } else if c == ',' {
            let text = match cut_out(name, item, pos) {
                Some(text) => text,
                None => {
                    return Outcome::Broken;
                },
            };
            if text.len() > 0 && nested > 0 {
                let read = read_name(&text, calls - 1);
                if read != Outcome::Read {
                    return read;
                }
            }
            if text.len() == 0 || nested > 0 {
                item = pos + 1;
            }
            pos = pos + 1;
        } else {
            pos = pos + 1;
        }
    }
    Outcome::Read
}

/// What comes of reading a name with so many calls of the reader at most.
fn read_name(name: &Vec<char>, calls: usize) -> (result: Outcome)
    ensures
        result == outcome(name@, calls as nat),
    decreases calls, 1nat,
{
    if calls == 0 {
        return Outcome::Broken;
    }
    let n: usize = name.len();
    if n > 0 && name[n - 1] == ')' {
        if name[0] == '(' {
            read_tuple(name, calls)
        } else {
            Outcome::Refused
        }
    } else if n > 0 && name[n - 1] == ']' {
        let size = read_size(name);
        if size.len() > 0 && !check_number(&size) {
            return Outcome::Refused;
        }
        proof {
            lemma_number_bytes(size@);
        }
        if n - size.len() < 2 {
            proof {
                lemma_negative_cut(name@, 0, n - size@.len() - 2);
            }
            return Outcome::Broken;
        }
        match cut_out(name, 0, n - size.len() - 2) {
            Some(inner) => read_name(&inner, calls - 1),
            None => Outcome::Broken,
        }
    } else {
        read_plain(name)
    }
}

/// Whether the name of a type can be given to the reader.
pub fn check_type_name(name: &str) -> (ok: bool)
    ensures
        ok == is_type_name(name@),
{
    read_name(&characters(name), MAX_CALLS) != Outcome::Broken
}

/// A name that ends in neither a parenthesis nor a bracket can be given to the reader, whatever it
/// is.
pub proof fn lemma_plain_names(name: Seq<char>)
    requires
        name.len() > 0 ==> name.last() != ')' && name.last() != ']',
    ensures
        is_type_name(name),
        outcome(name, 512) != Outcome::Broken,
{
}

/// Arrays of a type are read as the type is, with one more call.
pub proof fn lemma_array_of(name: Seq<char>, calls: nat)
    requires
        forall|i: int| 0 <= i < name.len() ==> #[trigger] name[i] < '\u{80}',
    ensures
        outcome(name + seq!['[', ']'], calls + 1) == outcome(name, calls),
{
    let array = name + seq!['[', ']'];
    let front = array.drop_last();
    assert(front =~= name.push('['));
    front.index_of_last_ensures('[');
    assert(front[name.len() as int] == '[');
    assert(front.contains('['));
    assert(front.index_of_last('[') == Some(name.len() as int));
    assert(array_size(array) =~= Seq::empty());
    assert forall|i: int| 0 <= i < array.len() implies #[trigger] array[i] < '\u{80}' by {
        if i < name.len() {
            assert(array[i] == name[i]);
        }
    }
    lemma_ascii_cut(array, 0, name.len() as int);
    assert(array.subrange(0, name.len() as int) =~= name);
}

/// Arrays of a type with a size are read as the type is, with one more call.
pub proof fn lemma_sized_array_of(name: Seq<char>, size: Seq<char>, calls: nat)
    requires
        forall|i: int| 0 <= i < name.len() ==> #[trigger] name[i] < '\u{80}',
        size.len() > 0,
        forall|i: int| 0 <= i < size.len() ==> '0' <= #[trigger] size[i] <= '9',
        value(size) <= usize::MAX,
    ensures
        outcome(name.push('[') + size.push(']'), calls + 1) == outcome(name, calls),
{
    let array = name.push('[') + size.push(']');
    let front = array.drop_last();
    assert(front =~= name.push('[') + size);
    front.index_of_last_ensures('[');
    assert(front[name.len() as int] == '[');
    assert(front.contains('['));
    let last = front.index_of_last('[')->0;
    if last > name.len() {
        assert(front[last] == size[last - name.len() - 1]);
    }
    assert(front.skip(name.len() as int + 1) =~= size);
    assert(array_size(array) == size);
    assert(size[0] != '+');
    assert(is_number(size));
    lemma_number_bytes(size);
    assert forall|i: int| 0 <= i < array.len() implies #[trigger] array[i] < '\u{80}' by {
        if i < name.len() {
            assert(array[i] == name[i]);
        } else if name.len() < i < array.len() - 1 {
            assert(array[i] == size[i - name.len() - 1]);
        }
    }
    lemma_ascii_cut(array, 0, name.len() as int);
    assert(array.subrange(0, name.len() as int) =~= name);
}

/// A closing bracket behind nothing, or behind a number, has no array to close.
pub proof fn lemma_unopened_array(size: Seq<char>, calls: nat)
    requires
        size.len() == 0 || is_number(size),
        !size.contains('['),
    ensures
        outcome(size.push(']'), calls) == Outcome::Broken,
{
    let name = size.push(']');
    assert(name.drop_last() =~= size);
    size.index_of_last_ensures('[');
    lemma_number_bytes(size);
    lemma_negative_cut(name, 0, name.len() - bytes(size) - 2);
}

/// In ASCII a name is cut where it is to be cut.
proof fn lemma_ascii_cut(name: Seq<char>, from: int, to: int)
    requires
        forall|i: int| 0 <= i < name.len() ==> #[trigger] name[i] < '\u{80}',
        0 <= from <= to <= name.len(),
    ensures
        cut(name, from, to) == Some(name.subrange(from, to)),
{
    assert forall|i: int| 0 <= i < from implies #[trigger] name.take(from)[i] < '\u{80}' by {
        assert(name.take(from)[i] == name[i]);
    }
    assert forall|i: int| 0 <= i < to implies #[trigger] name.take(to)[i] < '\u{80}' by {
        assert(name.take(to)[i] == name[i]);
    }
    lemma_ascii_bytes(name.take(from));
    lemma_ascii_bytes(name.take(to));
    lemma_chars_before(name, from, from);
    lemma_chars_before(name, to, to);
}

/// Whether a character stands between the items of tuples.
pub open spec fn is_delimiter(c: char) -> bool {
    c == '(' || c == ')' || c == ','
}

/// Whether a type may end with the character at `i`.
pub open spec fn ends_type(name: Seq<char>, i: int) -> bool {
    i + 1 == name.len() || name[i + 1] == '[' || name[i + 1] == ',' || name[i + 1] == ')'
}

/// Whether there is an opening bracket at `j` with no delimiter between it and `i`.
pub open spec fn opens_at(name: Seq<char>, j: int, i: int) -> bool {
    &&& 0 <= j < i
    &&& name[j] == '['
    &&& forall|k: int| j < k < i ==> !is_delimiter(#[trigger] name[k])
}

/// Whether every closing bracket with which a type may end was opened in the same item.
pub open spec fn is_bracketed(name: Seq<char>) -> bool {
    forall|i: int|
        0 <= i < name.len() && #[trigger] name[i] == ']' && ends_type(name, i) ==> exists|j: int|
            opens_at(name, j, i)
}

/// How many tuples and arrays a name has.
pub open spec fn nesting(name: Seq<char>) -> nat {
    name.filter(|c: char| c == '(' || c == ']').len()
}

/// A part of a name that leaves a tuple or an array out has fewer of them.
proof fn lemma_part_nesting(name: Seq<char>, from: int, to: int, left_out: int)
    requires
        0 <= from <= to <= name.len(),
        0 <= left_out < name.len(),
        left_out < from || to <= left_out,
        name[left_out] == '(' || name[left_out] == ']',
    ensures
        nesting(name.subrange(from, to)) < nesting(name),
{
    let nests = |c: char| c == '(' || c == ']';
    let (low, part, high) = (name.take(from), name.subrange(from, to), name.skip(to));
    assert(name =~= low + part + high);
    Seq::filter_distributes_over_add(low + part, high, nests);
    Seq::filter_distributes_over_add(low, part, nests);
    if left_out < from {
        assert(low[left_out] == name[left_out]);
        low.lemma_filter_contains(nests, left_out);
        assert(low.filter(nests).len() > 0);
    } else {
        assert(high[left_out - to] == name[left_out]);
        high.lemma_filter_contains(nests, left_out - to);
        assert(high.filter(nests).len() > 0);
    }
}

/// An item of a name has its brackets as the name has.
proof fn lemma_item_bracketed(name: Seq<char>, from: int, to: int)
    requires
        is_bracketed(name),
        0 <= from <= to <= name.len(),
        from == 0 || is_delimiter(name[from - 1]) || (from < to && name[from] == '('),
        to == name.len() || name[to] == '[' || name[to] == ',' || name[to] == ')',
    ensures
        is_bracketed(name.subrange(from, to)),
{
    let item = name.subrange(from, to);
    assert forall|i: int|
        0 <= i < item.len() && #[trigger] item[i] == ']' && ends_type(item, i) implies exists|
        j: int,
    |
        opens_at(item, j, i) by {
        assert(name[from + i] == ']');
        if i + 1 < item.len() {
            assert(item[i + 1] == name[from + i + 1]);
        }
        assert(ends_type(name, from + i));
        let at = from + i;
        let j = choose|j: int| opens_at(name, j, at);
        if j < from {
            if is_delimiter(name[from - 1]) {
                assert(j != from - 1);
                assert(!is_delimiter(name[from - 1]));
            } else {
                assert(!is_delimiter(name[from]));
            }
        }
        assert(opens_at(item, j - from, i)) by {
            assert forall|k: int| j - from < k < i implies !is_delimiter(#[trigger] item[k]) by {
                assert(item[k] == name[from + k]);
            }
        }
    }
}

/// A name in ASCII whose closing brackets were opened is not cut where it cannot be cut.
pub proof fn lemma_bracketed_names(name: Seq<char>, calls: nat)
    requires
        forall|i: int| 0 <= i < name.len() ==> #[trigger] name[i] < '\u{80}',
        is_bracketed(name),
        nesting(name) < calls,
    ensures
        outcome(name, calls) != Outcome::Broken,
    decreases calls, name.len() + 1,
{
    if name.len() > 0 && name.last() == ')' && name[0] == '(' {
        lemma_tuple_names(name, 1, 1, 0, 1, calls);
        assert(tuple_outcome(name, 0, 0, 0, 1, calls) == tuple_outcome(name, 1, 1, 0, 1, calls));
    } else if name.len() > 0 && name.last() == ']' {
        let size = array_size(name);
        if size.len() == 0 || is_number(size) {
            let front = name.drop_last();
            front.index_of_last_ensures('[');
            let end = name.len() - 1;
            assert(name[end] == ']' && ends_type(name, end));
            let j = choose|j: int| opens_at(name, j, end);
            assert(front[j] == '[');
            assert(front.contains('['));
            let k = front.index_of_last('[')->0;
            assert(front[k] == '[');
            lemma_number_bytes(size);
            lemma_ascii_cut(name, 0, k);
            lemma_item_bracketed(name, 0, k);
            let inner = name.subrange(0, k);
            assert forall|i: int| 0 <= i < inner.len() implies #[trigger] inner[i] < '\u{80}' by {
                assert(inner[i] == name[i]);
            }
            lemma_part_nesting(name, 0, k, end);
            lemma_bracketed_names(inner, (calls - 1) as nat);
            assert(size =~= front.skip(k + 1));
            assert(k == name.len() - bytes(size) - 2);
            assert(outcome(name, calls) == outcome(inner, (calls - 1) as nat));
        }
    }
}

/// An item of a tuple in ASCII whose closing brackets were opened.
proof fn lemma_item_names(name: Seq<char>, from: int, to: int, calls: nat)
    requires
        forall|i: int| 0 <= i < name.len() ==> #[trigger] name[i] < '\u{80}',
        is_bracketed(name),
        nesting(name) < calls,
        1 <= from < to <= name.len(),
        name[0] == '(',
        is_delimiter(name[from - 1]) || name[from] == '(',
        to == name.len() || name[to] == ',' || name[to] == ')',
    ensures
        cut(name, from, to) == Some(name.subrange(from, to)),
        outcome(name.subrange(from, to), (calls - 1) as nat) != Outcome::Broken,
    decreases calls, 0int,
{
    lemma_ascii_cut(name, from, to);
    lemma_item_bracketed(name, from, to);
    let item = name.subrange(from, to);
    assert forall|i: int| 0 <= i < item.len() implies #[trigger] item[i] < '\u{80}' by {
        assert(item[i] == name[from + i]);
    }
    lemma_part_nesting(name, from, to, 0);
    lemma_bracketed_names(item, (calls - 1) as nat);
}

/// The name of a tuple in ASCII whose closing brackets were opened, from a character on.
proof fn lemma_tuple_names(
    name: Seq<char>,
    pos: int,
    nested: int,
    open: int,
    item: int,
    calls: nat,
)
    requires
        forall|i: int| 0 <= i < name.len() ==> #[trigger] name[i] < '\u{80}',
        is_bracketed(name),
        nesting(name) < calls,
        1 <= item <= pos <= name.len(),
        name[0] == '(',
        nested >= 0,
        is_delimiter(name[item - 1]) || (item == pos && (pos == name.len() || name[pos] == ','
            || name[pos] == ')')),
        0 <= open < pos,
        name[open] == '(',
        nested >= 2 ==> open >= 1,
    ensures
        tuple_outcome(name, pos, nested, open, item, calls) != Outcome::Broken,
    decreases calls, name.len() - pos,
{
    if pos < name.len() {
        let c = name[pos];
        if c == '(' {
            let start = if nested > 0 {
                pos + 1
            } else {
                item
            };
            lemma_tuple_names(name, pos + 1, nested + 1, pos, start, calls);
        } else if c == ')' || c == ',' {
            lemma_ascii_cut(name, item, pos);
            if item < pos {
                lemma_item_names(name, item, pos, calls);
            }
            if c == ',' {
                if item == pos || nested > 0 {
                    lemma_tuple_names(name, pos + 1, nested, open, pos + 1, calls);
                } else {
                    lemma_tuple_names(name, pos + 1, nested, open, item, calls);
                }
            } else if nested > 0 {
                if item == pos || nested == 1 {
                    lemma_tuple_names(name, pos + 1, nested - 1, open, pos + 1, calls);
                } else {
                    let end = item_end(name, pos + 1);
                    lemma_item_end(name, pos + 1);
                    lemma_item_end_is(name, pos + 1);
                    lemma_item_names(name, open, end, calls);
                    lemma_tuple_names(name, end, nested - 1, open, end, calls);
                }
            }
        } else {
            lemma_tuple_names(name, pos + 1, nested, open, item, calls);
        }
    }
}

/// An item ends at a comma, at a closing parenthesis or with the name.
proof fn lemma_item_end_is(name: Seq<char>, i: int)
    requires
        0 <= i <= name.len(),
    ensures
        item_end(name, i) == name.len() || name[item_end(name, i)] == ',' || name[item_end(name, i)]
            == ')',
    decreases name.len() - i,
{
    if i < name.len() && name[i] != ',' && name[i] != ')' {
        lemma_item_end_is(name, i + 1);
    }
}

/// Every name in ASCII with its closing brackets opened can be given to the reader, as long as it
/// has fewer tuples and arrays than the reader may make calls.
pub proof fn lemma_bracketed_type_names(name: Seq<char>)
    requires
        forall|i: int| 0 <= i < name.len() ==> #[trigger] name[i] < '\u{80}',
        is_bracketed(name),
        nesting(name) < 512,
    ensures
        is_type_name(name),
{
    lemma_bracketed_names(name, 512);
}

} // verus!
