//! Geoid grids: the numbers of a grid file in the plain text form of the
//! portable graymap, and the value of a cell.
//!
//! The file is read as bytes. A line ends at a line feed, a carriage return
//! before which is not part of the line; blanks are the blank, the tab, and
//! the other ASCII white space.

use vstd::prelude::*;

verus! {

/// Why a grid file gives no value.
#[derive(Clone, Copy, Debug, PartialEq, Eq, Structural)]
pub enum GeoidError {
    /// The file is empty.
    NoMagic,
    /// The first line marks neither the plain nor the binary form.
    BadMagic,
    /// The width, the height or the greatest value is no number.
    BadNumber,
    /// The cell lies outside the grid.
    OutOfBounds,
    /// The file holds fewer values than the grid has cells.
    Incomplete,
    /// The file is in the binary form, which is not read.
    BinaryUnsupported,
}

/// A grid: its size and, of a file in the plain form, its values row by row.
#[derive(Clone, Debug, PartialEq, Eq)]
pub struct GeoidGrid {
    pub width: usize,
    pub height: usize,
    /// The file is in the binary form.
    pub binary: bool,
    pub data: Vec<i32>,
}

/// A grid as plain values.
pub struct GeoidGridView {
    pub width: usize,
    pub height: usize,
    pub binary: bool,
    pub data: Seq<i32>,
}

impl View for GeoidGrid {
    type V = GeoidGridView;

    open spec fn view(&self) -> GeoidGridView {
        GeoidGridView {
            width: self.width,
            height: self.height,
            binary: self.binary,
            data: self.data@,
        }
    }
}

/// ASCII white space.
pub open spec fn is_blank(b: u8) -> bool {
    b == 32 || (9 <= b && b <= 13)
}

/// A decimal digit.
pub open spec fn is_digit(b: u8) -> bool {
    48 <= b && b <= 57
}

/// The position of the first line feed at or after `pos`, or the length of
/// `s` where there is none.
pub open spec fn line_feed_from(s: Seq<u8>, pos: int) -> int
    decreases s.len() - pos,
{
    if pos < 0 || pos >= s.len() {
        s.len() as int
    } else if s[pos] == 10 {
        pos
    } else {
        line_feed_from(s, pos + 1)
    }
}

/// Where the line feed is, and that nothing before it is one.
pub proof fn lemma_line_feed_from(s: Seq<u8>, pos: int)
    requires
        0 <= pos <= s.len(),
    ensures
        pos <= line_feed_from(s, pos) <= s.len(),
        line_feed_from(s, pos) < s.len() ==> s[line_feed_from(s, pos)] == 10,
        forall|k: int| pos <= k < line_feed_from(s, pos) ==> s[k] != 10,
    decreases s.len() - pos,
{
    if pos < s.len() && s[pos] != 10 {
        lemma_line_feed_from(s, pos + 1);
    }
}

/// The end of the text of the line that starts at `pos`: its line feed, or the
/// carriage return in front of that.
pub open spec fn line_text_end(s: Seq<u8>, pos: int) -> int {
    let feed = line_feed_from(s, pos);
    if feed < s.len() && feed > pos && s[feed - 1] == 13 {
        feed - 1
    } else {
        feed
    }
}

/// The start of the line after the one that starts at `pos`.
pub open spec fn next_line(s: Seq<u8>, pos: int) -> int {
    let feed = line_feed_from(s, pos);
    if feed < s.len() {
        feed + 1
    } else {
        feed
    }
}

/// The first position in `from..to` that holds no blank, or `to`.
pub open spec fn skip_blanks(s: Seq<u8>, from: int, to: int) -> int
    decreases to - from,
{
    if from >= to || from < 0 || from >= s.len() {
        to
    } else if is_blank(s[from]) {
        skip_blanks(s, from + 1, to)
    } else {
        from
    }
}

/// The first position in `from..to` that holds a blank, or `to`.
pub open spec fn skip_word(s: Seq<u8>, from: int, to: int) -> int
    decreases to - from,
{
    if from >= to || from < 0 || from >= s.len() {
        to
    } else if !is_blank(s[from]) {
        skip_word(s, from + 1, to)
    } else {
        from
    }
}

proof fn lemma_skip_blanks(s: Seq<u8>, from: int, to: int)
    requires
        0 <= from <= to <= s.len(),
    ensures
        from <= skip_blanks(s, from, to) <= to,
        skip_blanks(s, from, to) < to ==> !is_blank(s[skip_blanks(s, from, to)]),
    decreases to - from,
{
    if from < to && is_blank(s[from]) {
        lemma_skip_blanks(s, from + 1, to);
    }
}

proof fn lemma_skip_word(s: Seq<u8>, from: int, to: int)
    requires
        0 <= from <= to <= s.len(),
    ensures
        from <= skip_word(s, from, to) <= to,
        from < to && !is_blank(s[from]) ==> from < skip_word(s, from, to),
    decreases to - from,
{
    if from < to && !is_blank(s[from]) {
        lemma_skip_word(s, from + 1, to);
    }
}

/// The number that the digits `s[from..to]` spell.
pub open spec fn digits_value(s: Seq<u8>, from: int, to: int) -> nat
    decreases to - from,
{
    if from >= to {
        0
    } else {
        10 * digits_value(s, from, to - 1) + (s[to - 1] - 48) as nat
    }
}

/// `s[from..to]` holds digits only.
pub open spec fn all_digits(s: Seq<u8>, from: int, to: int) -> bool {
    forall|k: int| from <= k < to ==> is_digit(#[trigger] s[k])
}

/// The number that `s[from..to]` spells: digits, with a sign in front where
/// `signed` says so or a plus sign at most; nothing where it spells none.
pub open spec fn number_spelt(s: Seq<u8>, from: int, to: int) -> Option<int> {
    if from >= to {
        None
    } else {
        let start = if s[from] == 43 || s[from] == 45 {
            from + 1
        } else {
            from
        };
        if start >= to || !all_digits(s, start, to) {
            None
        } else if s[from] == 45 {
            Some(-(digits_value(s, start, to) as int))
        } else {
            Some(digits_value(s, start, to) as int)
        }
    }
}

/// The size that `s[from..to]` spells: a number that is not negative, is
/// written without a minus sign, and fits.
pub open spec fn size_spelt(s: Seq<u8>, from: int, to: int) -> Option<usize> {
    match number_spelt(s, from, to) {
        Some(n) => if from < to && s[from] != 45 && n <= usize::MAX {
            Some(n as usize)
        } else {
            None
        },
        None => None,
    }
}

/// The value that `s[from..to]` spells: a number that fits in 32 bits with a
/// sign.
pub open spec fn value_spelt(s: Seq<u8>, from: int, to: int) -> Option<i32> {
    match number_spelt(s, from, to) {
        Some(n) => if -0x8000_0000 <= n <= 0x7fff_ffff {
            Some(n as i32)
        } else {
            None
        },
        None => None,
    }
}

fn find_line_feed(s: &[u8], pos: usize) -> (feed: usize)
    requires
        pos <= s@.len(),
    ensures
        feed == line_feed_from(s@, pos as int),
        pos <= feed <= s@.len(),
{
    let mut i: usize = pos;
    while i < s.len() && s[i] != 10
        invariant
            pos <= i <= s@.len(),
            line_feed_from(s@, pos as int) == line_feed_from(s@, i as int),
        decreases s@.len() - i,
    {
        i = i + 1;
    }
    proof {
        lemma_line_feed_from(s@, i as int);
    }
    i
}

/// The line that starts at `pos`: the end of its text and the start of the
/// next line.
fn read_line(s: &[u8], pos: usize) -> (r: (usize, usize))
    requires
        pos <= s@.len(),
    ensures
        r.0 == line_text_end(s@, pos as int),
        r.1 == next_line(s@, pos as int),
        pos <= r.0 <= r.1 <= s@.len(),
        pos < s@.len() ==> pos < r.1,
{
    let feed = find_line_feed(s, pos);
    if feed < s.len() {
        if feed > pos && s[feed - 1] == 13 {
            (feed - 1, feed + 1)
        } else {
            (feed, feed + 1)
        }
    } else {
        (feed, feed)
    }
}

fn blank(b: u8) -> (r: bool)
    ensures
        r == is_blank(b),
{
    b == 32 || (9 <= b && b <= 13)
}

fn pass_blanks(s: &[u8], from: usize, to: usize) -> (r: usize)
    requires
        from <= to <= s@.len(),
    ensures
        r == skip_blanks(s@, from as int, to as int),
        from <= r <= to,
{
    let mut i: usize = from;
    while i < to && blank(s[i])
        invariant
            from <= i <= to,
            to <= s@.len(),
            skip_blanks(s@, from as int, to as int) == skip_blanks(s@, i as int, to as int),
        decreases to - i,
    {
        i = i + 1;
    }
    i
}

fn pass_word(s: &[u8], from: usize, to: usize) -> (r: usize)
    requires
        from <= to <= s@.len(),
    ensures
        r == skip_word(s@, from as int, to as int),
        from <= r <= to,
{
    let mut i: usize = from;
    while i < to && !blank(s[i])
        invariant
            from <= i <= to,
            to <= s@.len(),
            skip_word(s@, from as int, to as int) == skip_word(s@, i as int, to as int),
        decreases to - i,
    {
        i = i + 1;
    }
    i
}

/// The last position in `from..to` after which only blanks follow.
pub open spec fn trimmed_end(s: Seq<u8>, from: int, to: int) -> int
    decreases to - from,
{
    if to <= from || to > s.len() || to < 1 {
        from
    } else if is_blank(s[to - 1]) {
        trimmed_end(s, from, to - 1)
    } else {
        to
    }
}

fn trim_end(s: &[u8], from: usize, to: usize) -> (r: usize)
    requires
        from <= to <= s@.len(),
    ensures
        r == trimmed_end(s@, from as int, to as int),
        from <= r <= to,
{
    let mut i: usize = to;
    while i > from && blank(s[i - 1])
        invariant
            from <= i <= to,
            to <= s@.len(),
            trimmed_end(s@, from as int, to as int) == trimmed_end(s@, from as int, i as int),
        decreases i - from,
    {
        i = i - 1;
    }
    i
}

/// Reads the number that `s[from..to]` spells, as far as it lies between
/// `-limit` and `limit`.
#[verifier::loop_isolation(false)]
fn read_number(s: &[u8], from: usize, to: usize, limit: u128) -> (r: Option<(bool, u128)>)
    requires
        from <= to <= s@.len(),
        limit <= 0xffff_ffff_ffff_ffff_ffff,
    ensures
        match r {
            Some((negative, magnitude)) => {
                &&& magnitude <= limit
                &&& from < to
                &&& negative == (s@[from as int] == 45)
                &&& number_spelt(s@, from as int, to as int) == Some(
                    if negative {
                        -(magnitude as int)
                    } else {
                        magnitude as int
                    },
                )
            },
            None => match number_spelt(s@, from as int, to as int) {
                Some(n) => n > limit || -n > limit,
                None => true,
            },
        },
{
    if from >= to {
        return None;
    }
    let negative = s[from] == 45;
    let start: usize = if s[from] == 43 || s[from] == 45 {
        from + 1
    } else {
        from
    };
    if start >= to {
        return None;
    }
    let mut value: u128 = 0;
    let mut i: usize = start;
    while i < to
        invariant
            start <= i <= to,
            to <= s@.len(),
            limit <= 0xffff_ffff_ffff_ffff_ffff,
            value <= limit,
            all_digits(s@, start as int, i as int),
            value == digits_value(s@, start as int, i as int),
        decreases to - i,
    {
        let b = s[i];
        if !(48 <= b && b <= 57) {
            assert(!all_digits(s@, start as int, to as int)) by {
                assert(!is_digit(s@[i as int]));
            }
            return None;
        }
        let next: u128 = 10 * value + (b - 48) as u128;
        assert(digits_value(s@, start as int, i + 1) == next);
        if next > limit {
            proof {
                lemma_digits_grow(s@, start as int, i + 1, to as int);
                if all_digits(s@, start as int, to as int) {
                    assert(digits_value(s@, start as int, to as int) > limit);
                }
            }
            return None;
        }
        value = next;
        i = i + 1;
    }
    Some((negative, value))
}

/// More digits never spell a smaller number.
proof fn lemma_digits_grow(s: Seq<u8>, from: int, mid: int, to: int)
    requires
        from <= mid <= to,
    ensures
        all_digits(s, from, to) ==> digits_value(s, from, mid) <= digits_value(s, from, to),
    decreases to - mid,
{
    if mid < to && all_digits(s, from, to) {
        lemma_digits_grow(s, from, mid, to - 1);
        assert(is_digit(s[to - 1]));
    }
}

fn read_size(s: &[u8], from: usize, to: usize) -> (r: Option<usize>)
    requires
        from <= to <= s@.len(),
    ensures
        r == size_spelt(s@, from as int, to as int),
{
    match read_number(s, from, to, usize::MAX as u128) {
        Some((negative, magnitude)) => {
            if negative {
                None
            } else {
                Some(magnitude as usize)
            }
        },
        None => None,
    }
}

fn read_value(s: &[u8], from: usize, to: usize) -> (r: Option<i32>)
    requires
        from <= to <= s@.len(),
    ensures
        r == value_spelt(s@, from as int, to as int),
{
    match read_number(s, from, to, 0x8000_0000) {
        Some((negative, magnitude)) => {
            if negative {
                Some((-(magnitude as i64)) as i32)
            } else if magnitude <= 0x7fff_ffff {
                Some(magnitude as i32)
            } else {
                None
            }
        },
        None => None,
    }
}

/// The line that starts at `pos` holds nothing to read: blanks only, or a
/// comment, which starts with `#`.
pub open spec fn is_skipped(s: Seq<u8>, pos: int) -> bool {
    let end = line_text_end(s, pos);
    let start = skip_blanks(s, pos, end);
    start >= end || s[start] == 35
}

/// Width and height, from the first line at or after `pos` that is not skipped
/// and holds two words or more, and the start of the line after it. Lines with
/// fewer words are passed over. Without such a line both are zero.
pub open spec fn dims_from(s: Seq<u8>, pos: int) -> Result<(usize, usize, int), GeoidError>
    decreases s.len() - pos,
{
    if pos < 0 || pos >= s.len() {
        Ok((0usize, 0usize, pos))
    } else {
        let end = line_text_end(s, pos);
        let next = next_line(s, pos);
        let a0 = skip_blanks(s, pos, end);
        let b0 = skip_word(s, a0, end);
        let a1 = skip_blanks(s, b0, end);
        let b1 = skip_word(s, a1, end);
        if next <= pos || next > s.len() {
            Ok((0usize, 0usize, pos))
        } else if is_skipped(s, pos) || a1 >= end {
            dims_from(s, next)
        } else {
            match (size_spelt(s, a0, b0), size_spelt(s, a1, b1)) {
                (Some(width), Some(height)) => Ok((width, height, next)),
                _ => Err(GeoidError::BadNumber),
            }
        }
    }
}

/// The start of the line after the greatest value, which is the first line at
/// or after `pos` that is not skipped and has to be one number.
pub open spec fn max_value_from(s: Seq<u8>, pos: int) -> Result<int, GeoidError>
    decreases s.len() - pos,
{
    if pos < 0 || pos >= s.len() {
        Ok(pos)
    } else {
        let end = line_text_end(s, pos);
        let next = next_line(s, pos);
        let start = skip_blanks(s, pos, end);
        if next <= pos || next > s.len() {
            Ok(pos)
        } else if is_skipped(s, pos) {
            max_value_from(s, next)
        } else if value_spelt(s, start, trimmed_end(s, start, end)) is Some {
            Ok(next)
        } else {
            Err(GeoidError::BadNumber)
        }
    }
}

/// The values that the words of `s` in `from..to` spell, in their order. A
/// word that spells no value is passed over.
pub open spec fn values_in(s: Seq<u8>, from: int, to: int) -> Seq<i32>
    decreases to - from,
{
    let start = skip_blanks(s, from, to);
    let end = skip_word(s, start, to);
    if from < 0 || to > s.len() || start < from || start >= to || end <= start || end > to {
        Seq::empty()
    } else {
        (match value_spelt(s, start, end) {
            Some(v) => seq![v],
            None => Seq::empty(),
        }) + values_in(s, end, to)
    }
}

/// The values of all lines from `pos` on.
pub open spec fn values_from(s: Seq<u8>, pos: int) -> Seq<i32>
    decreases s.len() - pos,
{
    if pos < 0 || pos >= s.len() || next_line(s, pos) <= pos || next_line(s, pos) > s.len() {
        Seq::empty()
    } else {
        values_in(s, pos, line_text_end(s, pos)) + values_from(s, next_line(s, pos))
    }
}

/// The first line of a file in the plain form: the letter P and the digit 2.
pub open spec fn plain_magic() -> Seq<u8> {
    seq![80u8, 50u8]
}

/// The first line of a file in the binary form: the letter P and the digit 5.
pub open spec fn binary_magic() -> Seq<u8> {
    seq![80u8, 53u8]
}

/// The grid that the file `s` holds: the first line says which form the file
/// is in; then come width and height, then the greatest value, then, in the
/// plain form, the values.
pub open spec fn grid_of(s: Seq<u8>) -> Result<GeoidGridView, GeoidError> {
    let magic = s.subrange(0, line_text_end(s, 0));
    if s.len() == 0 {
        Err(GeoidError::NoMagic)
    } else if magic != plain_magic() && magic != binary_magic() {
        Err(GeoidError::BadMagic)
    } else {
        match dims_from(s, next_line(s, 0)) {
            Err(e) => Err(e),
            Ok((width, height, p)) => match max_value_from(s, p) {
                Err(e) => Err(e),
                Ok(q) => Ok(
                    GeoidGridView {
                        width,
                        height,
                        binary: magic == binary_magic(),
                        data: if magic == binary_magic() {
                            Seq::empty()
                        } else {
                            values_from(s, q)
                        },
                    },
                ),
            },
        }
    }
}

fn skipped(s: &[u8], pos: usize, end: usize) -> (r: bool)
    requires
        pos <= end <= s@.len(),
        end == line_text_end(s@, pos as int),
    ensures
        r == is_skipped(s@, pos as int),
{
    let start = pass_blanks(s, pos, end);
    start >= end || s[start] == 35
}

#[verifier::loop_isolation(false)]
fn read_dims(s: &[u8], pos: usize) -> (r: Result<(usize, usize, usize), GeoidError>)
    requires
        pos <= s@.len(),
    ensures
        match r {
            Ok((w, h, next)) => dims_from(s@, pos as int) == Ok::<
                (usize, usize, int),
                GeoidError,
            >((w, h, next as int)) && next <= s@.len(),
            Err(e) => dims_from(s@, pos as int) == Err::<(usize, usize, int), GeoidError>(e),
        },
{
    let mut at: usize = pos;
    while at < s.len()
        invariant
            pos <= at <= s@.len(),
            dims_from(s@, pos as int) == dims_from(s@, at as int),
        decreases s@.len() - at,
    {
        let (end, next) = read_line(s, at);
        if !skipped(s, at, end) {
            let a0 = pass_blanks(s, at, end);
            let b0 = pass_word(s, a0, end);
            let a1 = pass_blanks(s, b0, end);
            if a1 < end {
                let b1 = pass_word(s, a1, end);
                return match (read_size(s, a0, b0), read_size(s, a1, b1)) {
                    (Some(w), Some(h)) => Ok((w, h, next)),
                    _ => Err(GeoidError::BadNumber),
                };
            }
        }
        at = next;
    }
    Ok((0, 0, at))
}

#[verifier::loop_isolation(false)]
fn read_max_value(s: &[u8], pos: usize) -> (r: Result<usize, GeoidError>)
    requires
        pos <= s@.len(),
    ensures
        match r {
            Ok(next) => max_value_from(s@, pos as int) == Ok::<int, GeoidError>(next as int)
                && next <= s@.len(),
            Err(e) => max_value_from(s@, pos as int) == Err::<int, GeoidError>(e),
        },
{
    let mut at: usize = pos;
    while at < s.len()
        invariant
            pos <= at <= s@.len(),
            max_value_from(s@, pos as int) == max_value_from(s@, at as int),
        decreases s@.len() - at,
    {
        let (end, next) = read_line(s, at);
        if !skipped(s, at, end) {
            let start = pass_blanks(s, at, end);
            let stop = trim_end(s, start, end);
            return match read_value(s, start, stop) {
                Some(_) => Ok(next),
                None => Err(GeoidError::BadNumber),
            };
        }
        at = next;
    }
    Ok(at)
}

#[verifier::loop_isolation(false)]
fn read_values(s: &[u8], pos: usize) -> (values: Vec<i32>)
    requires
        pos <= s@.len(),
    ensures
        values@ == values_from(s@, pos as int),
{
    let mut values: Vec<i32> = Vec::new();
    let mut at: usize = pos;
    while at < s.len()
        invariant
            pos <= at <= s@.len(),
            values_from(s@, pos as int) == values@ + values_from(s@, at as int),
        decreases s@.len() - at,
    {
        let (end, next) = read_line(s, at);
        let ghost before = values@;
        let mut i: usize = at;
        while i < end
            invariant
                at <= i <= end,
                before + values_in(s@, at as int, end as int) == values@ + values_in(
                    s@,
                    i as int,
                    end as int,
                ),
            decreases end - i,
        {
            let start = pass_blanks(s, i, end);
            if start >= end {
                i = end;
            } else {
                let stop = pass_word(s, start, end);
                proof {
                    lemma_skip_word(s@, start as int, end as int);
                    lemma_skip_blanks(s@, i as int, end as int);
                }
                let ghost so_far = values@;
                match read_value(s, start, stop) {
                    Some(v) => {
                        values.push(v);
                        assert(so_far + (seq![v] + values_in(s@, stop as int, end as int))
                            =~= so_far.push(v) + values_in(s@, stop as int, end as int));
                    },
                    None => {
                        assert(so_far + (Seq::<i32>::empty() + values_in(
                            s@,
                            stop as int,
                            end as int,
                        )) =~= so_far + values_in(s@, stop as int, end as int));
                    },
                }
                i = stop;
            }
        }
        proof {
            assert(values_in(s@, end as int, end as int) =~= Seq::<i32>::empty());
            assert(values@ =~= before + values_in(s@, at as int, end as int));
            assert(before + (values_in(s@, at as int, end as int) + values_from(s@, next as int))
                =~= values@ + values_from(s@, next as int));
        }
        at = next;
    }
    assert(values@ + Seq::<i32>::empty() =~= values@);
    values
}

/// Reads a grid file.
pub fn parse_grid(text: &[u8]) -> (r: Result<GeoidGrid, GeoidError>)
    ensures
        match r {
            Ok(grid) => grid_of(text@) == Ok::<GeoidGridView, GeoidError>(grid@),
            Err(e) => grid_of(text@) == Err::<GeoidGridView, GeoidError>(e),
        },
{
    if text.len() == 0 {
        return Err(GeoidError::NoMagic);
    }
    let (end, next) = read_line(text, 0);
    let ghost magic = text@.subrange(0, end as int);
    let binary = if end == 2 && text[0] == 80 && text[1] == 50 {
        assert(magic =~= plain_magic());
        false
    } else if end == 2 && text[0] == 80 && text[1] == 53 {
        assert(magic =~= binary_magic());
        true
    } else {
        assert(magic != plain_magic() && magic != binary_magic()) by {
            if magic == plain_magic() || magic == binary_magic() {
                assert(magic.len() == 2);
                assert(magic[0] == text@[0] && magic[1] == text@[1]);
            }
        }
        return Err(GeoidError::BadMagic);
    };
    assert(plain_magic() != binary_magic()) by {
        assert(plain_magic()[1] != binary_magic()[1]);
    }
    let (width, height, after_dims) = match read_dims(text, next) {
        Ok(v) => v,
        Err(e) => {
            return Err(e);
        },
    };
    let after_max = match read_max_value(text, after_dims) {
        Ok(v) => v,
        Err(e) => {
            return Err(e);
        },
    };
    let data = if binary {
        Vec::new()
    } else {
        read_values(text, after_max)
    };
    Ok(GeoidGrid { width, height, binary, data })
}

/// The value of the cell in row `row` and column `column` of the grid: none
/// outside the grid, none of a grid in the binary form, none where the file
/// holds fewer values than the grid has cells.
pub open spec fn cell_of(grid: GeoidGridView, row: usize, column: usize) -> Result<
    i32,
    GeoidError,
> {
    if row >= grid.height || column >= grid.width {
        Err(GeoidError::OutOfBounds)
    } else if grid.binary {
        Err(GeoidError::BinaryUnsupported)
    } else if grid.data.len() < grid.width * grid.height {
        Err(GeoidError::Incomplete)
    } else {
        Ok(grid.data[row * grid.width + column])
    }
}

/// The value of a cell of the grid.
pub fn raw_value(grid: &GeoidGrid, row: usize, column: usize) -> (r: Result<i32, GeoidError>)
    ensures
        r == cell_of(grid@, row, column),
{
    if row >= grid.height || column >= grid.width {
        return Err(GeoidError::OutOfBounds);
    }
    if grid.binary {
        return Err(GeoidError::BinaryUnsupported);
    }
    assert(grid.width as u128 * grid.height as u128 <= u128::MAX) by (nonlinear_arith)
        requires
            grid.width <= 0xffff_ffff_ffff_ffff,
            grid.height <= 0xffff_ffff_ffff_ffff,
    ;
    let cells: u128 = grid.width as u128 * grid.height as u128;
    if (grid.data.len() as u128) < cells {
        return Err(GeoidError::Incomplete);
    }
    assert(row * grid.width + column < grid.width * grid.height) by (nonlinear_arith)
        requires
            row < grid.height,
            column < grid.width,
    ;
    Ok(grid.data[row * grid.width + column])
}

} // verus!
