//! The header of a grid-float tile: a text of lines that each hold a key
//! and a value.

use crate::dem::{ByteOrder, DemError};
use vstd::prelude::*;
use vstd::string::StrSliceExecFns;

verus! {

/// Whether a character is white space.
pub open spec fn is_space(c: char) -> bool {
    let u = c as u32;
    (0x09 <= u <= 0x0d) || u == 0x20 || u == 0x85 || u == 0xa0 || u == 0x1680 || (0x2000 <= u
        <= 0x200a) || u == 0x2028 || u == 0x2029 || u == 0x202f || u == 0x205f || u == 0x3000
}

/// The first place at or behind `i` and before `end` that holds no white
/// space, or `end` if there is none.
pub open spec fn skip_spaces(text: Seq<char>, i: int, end: int) -> int
    decreases end - i,
{
    if i >= end {
        end
    } else if is_space(text[i]) {
        skip_spaces(text, i + 1, end)
    } else {
        i
    }
}

/// The first place at or behind `i` and before `end` that holds white
/// space, or `end` if there is none.
pub open spec fn token_end(text: Seq<char>, i: int, end: int) -> int
    decreases end - i,
{
    if i >= end {
        end
    } else if is_space(text[i]) {
        i
    } else {
        token_end(text, i + 1, end)
    }
}

/// Where the key and the value of a line stand: the first two runs of
/// characters that are no white space, each from its first place to the
/// place behind its last.
pub open spec fn entry_places(text: Seq<char>, from: int, end: int) -> (int, int, int, int) {
    let key = skip_spaces(text, from, end);
    let key_end = token_end(text, key, end);
    let value = skip_spaces(text, key_end, end);
    let value_end = token_end(text, value, end);
    (key, key_end, value, value_end)
}

/// The key and the value of the line between `from` and `end`; a line with
/// fewer than two words has none.
pub open spec fn entry_of(text: Seq<char>, from: int, end: int) -> Option<(Seq<char>, Seq<char>)> {
    let (key, key_end, value, value_end) = entry_places(text, from, end);
    if key < end && value < end {
        Some((text.subrange(key, key_end), text.subrange(value, value_end)))
    } else {
        None
    }
}

/// The value found for `key` once a line was read: the value of that line
/// if it has this key, else the value found before.
pub open spec fn with_entry(
    found: Option<Seq<char>>,
    entry: Option<(Seq<char>, Seq<char>)>,
    key: Seq<char>,
) -> Option<Seq<char>> {
    match entry {
        Some((k, v)) => if k == key {
            Some(v)
        } else {
            found
        },
        None => found,
    }
}

/// The value found for `key` at the end of the text, when the text was
/// read up to `pos`, the current line began at `line`, and `found` is the
/// value of the lines before.
pub open spec fn scan(
    text: Seq<char>,
    pos: int,
    line: int,
    key: Seq<char>,
    found: Option<Seq<char>>,
) -> Option<Seq<char>>
    decreases text.len() - pos,
{
    if pos >= text.len() {
        with_entry(found, entry_of(text, line, text.len() as int), key)
    } else if text[pos] == '\n' {
        scan(text, pos + 1, pos + 1, key, with_entry(found, entry_of(text, line, pos), key))
    } else {
        scan(text, pos + 1, line, key, found)
    }
}

/// The value that a header gives for a key: the second word of the last
/// line whose first word is the key.
pub open spec fn header_value(text: Seq<char>, key: Seq<char>) -> Option<Seq<char>> {
    scan(text, 0, 0, key, None)
}

/// The number that a decimal digit stands for.
pub open spec fn digit_of(c: char) -> Option<int> {
    if '0' as u32 <= c as u32 <= '9' as u32 {
        Some(c as u32 - '0' as u32)
    } else {
        None
    }
}

/// The number that a run of decimal digits stands for.
pub open spec fn digits_value(digits: Seq<char>) -> Option<int>
    decreases digits.len(),
{
    if digits.len() == 0 {
        Some(0)
    } else {
        match (digits_value(digits.drop_last()), digit_of(digits.last())) {
            (Some(value), Some(digit)) => Some(10 * value + digit),
            _ => None,
        }
    }
}

/// The count that a word stands for: decimal digits, at least one, with a
/// plus sign in front or none, and a value that the machine can hold.
pub open spec fn count_of(word: Seq<char>) -> Option<usize> {
    let digits = if word.len() > 0 && word[0] == '+' {
        word.skip(1)
    } else {
        word
    };
    if digits.len() == 0 {
        None
    } else {
        match digits_value(digits) {
            Some(value) => if value <= usize::MAX {
                Some(value as usize)
            } else {
                None
            },
            None => None,
        }
    }
}

/// The byte order that a word stands for.
pub open spec fn byte_order_of(word: Seq<char>) -> Option<ByteOrder> {
    if word == "LSBFIRST"@ {
        Some(ByteOrder::LsbFirst)
    } else if word == "MSBFIRST"@ {
        Some(ByteOrder::MsbFirst)
    } else {
        None
    }
}

/// The keys of a header, by number.
pub open spec fn key_text(key: int) -> Seq<char> {
    if key == 0 {
        "ncols"@
    } else if key == 1 {
        "nrows"@
    } else if key == 2 {
        "xllcorner"@
    } else if key == 3 {
        "yllcorner"@
    } else if key == 4 {
        "cellsize"@
    } else if key == 5 {
        "NODATA_value"@
    } else {
        "byteorder"@
    }
}

/// The header of a grid-float tile. The corners, the cell size and the
/// value that marks a void are decimal fractions, kept as they are written.
pub struct NedHeader {
    pub ncols: usize,
    pub nrows: usize,
    pub xllcorner: String,
    pub yllcorner: String,
    pub cellsize: String,
    pub nodata_value: String,
    pub byte_order: ByteOrder,
}

impl NedHeader {
    /// Whether this is what a text says: each field is the value of its
    /// key, the counts and the byte order read from their words.
    pub open spec fn read_from(&self, text: Seq<char>) -> bool {
        &&& header_value(text, key_text(0)) matches Some(word) && count_of(word) == Some(
            self.ncols,
        )
        &&& header_value(text, key_text(1)) matches Some(word) && count_of(word) == Some(
            self.nrows,
        )
        &&& header_value(text, key_text(2)) == Some(self.xllcorner@)
        &&& header_value(text, key_text(3)) == Some(self.yllcorner@)
        &&& header_value(text, key_text(4)) == Some(self.cellsize@)
        &&& header_value(text, key_text(5)) == Some(self.nodata_value@)
        &&& header_value(text, key_text(6)) matches Some(word) && byte_order_of(word) == Some(
            self.byte_order,
        )
    }
}

/// Whether a text gives every field of a header: a value for each key, with
/// counts for the columns and rows and a byte order that is known.
pub open spec fn is_header(text: Seq<char>) -> bool {
    &&& header_value(text, key_text(0)) matches Some(word) && count_of(word) is Some
    &&& header_value(text, key_text(1)) matches Some(word) && count_of(word) is Some
    &&& header_value(text, key_text(2)) is Some
    &&& header_value(text, key_text(3)) is Some
    &&& header_value(text, key_text(4)) is Some
    &&& header_value(text, key_text(5)) is Some
    &&& header_value(text, key_text(6)) matches Some(word) && byte_order_of(word) is Some
}

/// Tells whether a character is white space.
fn space(c: char) -> (r: bool)
    ensures
        r == is_space(c),
{
    let u = c as u32;
    (0x09 <= u && u <= 0x0d) || u == 0x20 || u == 0x85 || u == 0xa0 || u == 0x1680 || (0x2000 <= u
        && u <= 0x200a) || u == 0x2028 || u == 0x2029 || u == 0x202f || u == 0x205f || u == 0x3000
}

/// The first place at or behind `i` and before `end` that holds no white
/// space.
fn skip(text: &str, i: usize, end: usize) -> (place: usize)
    requires
        i <= end <= text@.len(),
    ensures
        place == skip_spaces(text@, i as int, end as int),
        i <= place <= end,
{
    let mut at: usize = i;
    while at < end
        invariant
            i <= at <= end <= text@.len(),
            skip_spaces(text@, i as int, end as int) == skip_spaces(text@, at as int, end as int),
        decreases end - at,
    {
        if !space(text.get_char(at)) {
            return at;
        }
        at += 1;
    }
    at
}

/// The first place at or behind `i` and before `end` that holds white
/// space.
fn stop(text: &str, i: usize, end: usize) -> (place: usize)
    requires
        i <= end <= text@.len(),
    ensures
        place == token_end(text@, i as int, end as int),
        i <= place <= end,
{
    let mut at: usize = i;
    while at < end
        invariant
            i <= at <= end <= text@.len(),
            token_end(text@, i as int, end as int) == token_end(text@, at as int, end as int),
        decreases end - at,
    {
        if space(text.get_char(at)) {
            return at;
        }
        at += 1;
    }
    at
}

/// Whether the characters of `text` between `from` and `to` are the word.
fn same_text(text: &str, from: usize, to: usize, word: &str) -> (r: bool)
    requires
        from <= to <= text@.len(),
    ensures
        r == (text@.subrange(from as int, to as int) == word@),
{
    let length = word.unicode_len();
    if to - from != length {
        return false;
    }
    let mut i: usize = 0;
    while i < length
        invariant
            i <= length,
            length == word@.len(),
            to - from == length,
            from <= to <= text@.len(),
            forall|k: int| 0 <= k < i ==> text@[from + k] == word@[k],
        decreases length - i,
    {
        if text.get_char(from + i) != word.get_char(i) {
            assert(text@.subrange(from as int, to as int)[i as int] != word@[i as int]);
            return false;
        }
        i += 1;
    }
    assert(text@.subrange(from as int, to as int) =~= word@);
    true
}

/// The key with the given number.
fn key_str(key: usize) -> (text: &'static str)
    requires
        key < 7,
    ensures
        text@ == key_text(key as int),
{
    if key == 0 {
        "ncols"
    } else if key == 1 {
        "nrows"
    } else if key == 2 {
        "xllcorner"
    } else if key == 3 {
        "yllcorner"
    } else if key == 4 {
        "cellsize"
    } else if key == 5 {
        "NODATA_value"
    } else {
        "byteorder"
    }
}

/// The places of a value as the text between them.
pub open spec fn found_text(text: Seq<char>, places: Option<(usize, usize)>) -> Option<Seq<char>> {
    match places {
        Some((from, to)) => Some(text.subrange(from as int, to as int)),
        None => None,
    }
}

/// Notes the value of the line between `line` and `end` for the key that
/// the line has, if it has one of the seven.
fn note_line(text: &str, line: usize, end: usize, found: &mut Vec<Option<(usize, usize)>>)
    requires
        line <= end <= text@.len(),
        old(found)@.len() == 7,
        forall|k: int|
            0 <= k < 7 ==> (#[trigger] old(found)@[k] matches Some((from, to)) ==> from <= to
                <= text@.len()),
    ensures
        final(found)@.len() == 7,
        forall|k: int|
            0 <= k < 7 ==> (#[trigger] final(found)@[k] matches Some((from, to)) ==> from <= to
                <= text@.len()),
        forall|k: int|
            0 <= k < 7 ==> found_text(text@, #[trigger] final(found)@[k]) == with_entry(
                found_text(text@, old(found)@[k]),
                entry_of(text@, line as int, end as int),
                key_text(k),
            ),
{
    let key = skip(text, line, end);
    let key_end = stop(text, key, end);
    let value = skip(text, key_end, end);
    let value_end = stop(text, value, end);
    if key < end && value < end {
        let mut k: usize = 0;
        while k < 7
            invariant
                k <= 7,
                key <= key_end <= value <= value_end <= end <= text@.len(),
                found@.len() == 7,
                entry_of(text@, line as int, end as int) == Some(
                    (
                        text@.subrange(key as int, key_end as int),
                        text@.subrange(value as int, value_end as int),
                    ),
                ),
                forall|j: int|
                    0 <= j < 7 ==> (#[trigger] found@[j] matches Some((from, to)) ==> from <= to
                        <= text@.len()),
                forall|j: int|
                    0 <= j < k ==> found_text(text@, #[trigger] found@[j]) == with_entry(
                        found_text(text@, old(found)@[j]),
                        entry_of(text@, line as int, end as int),
                        key_text(j),
                    ),
                forall|j: int| k <= j < 7 ==> #[trigger] found@[j] == old(found)@[j],
            decreases 7 - k,
        {
            if same_text(text, key, key_end, key_str(k)) {
                found.set(k, Some((value, value_end)));
            }
            k += 1;
        }
    }
}

/// The count that the characters of `text` between `from` and `to` stand
/// for.
fn read_count(text: &str, from: usize, to: usize) -> (count: Option<usize>)
    requires
        from <= to <= text@.len(),
    ensures
        count == count_of(text@.subrange(from as int, to as int)),
{
    let ghost word = text@.subrange(from as int, to as int);
    let start = if from < to && text.get_char(from) == '+' {
        assert(word[0] == text@[from as int]);
        from + 1
    } else {
        if from < to {
            assert(word[0] == text@[from as int]);
        }
        from
    };
    let ghost digits = text@.subrange(start as int, to as int);
    assert(digits =~= if word.len() > 0 && word[0] == '+' {
        word.skip(1)
    } else {
        word
    });
    if start == to {
        return None;
    }
    let mut value: usize = 0;
    let mut fits = true;
    let mut i: usize = start;
    assert(digits.take(0) =~= Seq::<char>::empty());
    while i < to
        invariant
            from <= start <= i <= to <= text@.len(),
            start < to,
            word == text@.subrange(from as int, to as int),
            digits == text@.subrange(start as int, to as int),
            digits == (if word.len() > 0 && word[0] == '+' {
                word.skip(1)
            } else {
                word
            }),
            digits_value(digits.take(i - start)) matches Some(so_far) && (if fits {
                so_far == value
            } else {
                so_far > usize::MAX
            }),
        decreases to - i,
    {
        let c = text.get_char(i);
        let ghost before = digits.take(i - start);
        let ghost upto = digits.take(i - start + 1);
        assert(upto.drop_last() =~= before);
        assert(upto.last() == text@[i as int]);
        let u = c as u32;
        if u < 48 || u > 57 {
            proof {
                assert('0' as u32 == 48 && '9' as u32 == 57);
                assert(digit_of(c) is None);
                assert(digits_value(upto) is None);
                lemma_digits_prefix(digits, i - start + 1);
            }
            return None;
        }
        assert('0' as u32 == 48 && '9' as u32 == 57);
        let digit = (u - 48) as usize;
        if fits {
            match value.checked_mul(10) {
                Some(tens) => match tens.checked_add(digit) {
                    Some(sum) => {
                        value = sum;
                    },
                    None => {
                        fits = false;
                    },
                },
                None => {
                    fits = false;
                },
            }
        }
        i += 1;
    }
    assert(digits.take(to - start) =~= digits);
    if fits {
        Some(value)
    } else {
        None
    }
}

/// A run of characters whose beginning is no number is no number.
proof fn lemma_digits_prefix(digits: Seq<char>, upto: int)
    requires
        0 <= upto <= digits.len(),
        digits_value(digits.take(upto)) is None,
    ensures
        digits_value(digits) is None,
    decreases digits.len() - upto,
{
    if upto < digits.len() {
        assert(digits.take(upto + 1).drop_last() =~= digits.take(upto));
        lemma_digits_prefix(digits, upto + 1);
    } else {
        assert(digits.take(upto) =~= digits);
    }
}

/// Reads the header of a grid-float tile. Each line holds a key and a
/// value; where a key stands on several lines, the last one counts. A text
/// that lacks one of the seven fields, or whose counts or byte order cannot
/// be read, is refused.
pub fn parse_header(text: &str) -> (header: Result<NedHeader, DemError>)
    ensures
        header is Ok <==> is_header(text@),
        header is Ok ==> header.unwrap().read_from(text@),
{
    let length = text.unicode_len();
    let mut found: Vec<Option<(usize, usize)>> = Vec::new();
    let mut k: usize = 0;
    while k < 7
        invariant
            k <= 7,
            found@.len() == k,
            forall|j: int| 0 <= j < k ==> #[trigger] found@[j] is None,
        decreases 7 - k,
    {
        found.push(None);
        k += 1;
    }
    let mut line: usize = 0;
    let mut pos: usize = 0;
    while pos < length
        invariant
            line <= pos <= length,
            length == text@.len(),
            found@.len() == 7,
            forall|j: int|
                0 <= j < 7 ==> (#[trigger] found@[j] matches Some((from, to)) ==> from <= to
                    <= text@.len()),
            forall|j: int|
                0 <= j < 7 ==> header_value(text@, key_text(j)) == scan(
                    text@,
                    pos as int,
                    line as int,
                    key_text(j),
                    found_text(text@, #[trigger] found@[j]),
                ),
        decreases length - pos,
    {
        if text.get_char(pos) == '\n' {
            note_line(text, line, pos, &mut found);
            line = pos + 1;
        }
        pos += 1;
    }
    note_line(text, line, length, &mut found);
    assert forall|j: int| 0 <= j < 7 implies header_value(text@, key_text(j)) == found_text(
        text@,
        #[trigger] found@[j],
    ) by {}
    let ncols = match found[0] {
        Some((from, to)) => read_count(text, from, to),
        None => None,
    };
    let nrows = match found[1] {
        Some((from, to)) => read_count(text, from, to),
        None => None,
    };
    let byte_order = match found[6] {
        Some((from, to)) => {
            if same_text(text, from, to, "LSBFIRST") {
                Some(ByteOrder::LsbFirst)
            } else if same_text(text, from, to, "MSBFIRST") {
                Some(ByteOrder::MsbFirst)
            } else {
                None
            }
        },
        None => None,
    };
    match (ncols, nrows, found[2], found[3], found[4], found[5], byte_order) {
        (Some(ncols), Some(nrows), Some(x), Some(y), Some(cell), Some(nodata), Some(byte_order)) => {
            Ok(
                NedHeader {
                    ncols,
                    nrows,
                    xllcorner: text.substring_char(x.0, x.1).to_owned(),
                    yllcorner: text.substring_char(y.0, y.1).to_owned(),
                    cellsize: text.substring_char(cell.0, cell.1).to_owned(),
                    nodata_value: text.substring_char(nodata.0, nodata.1).to_owned(),
                    byte_order,
                },
            )
        },
        _ => Err(DemError::ParseError),
    }
}

} // verus!
