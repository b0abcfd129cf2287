//! Partition references: a file path with optional 1-indexed, inclusive line
//! and column bounds, written `path[:lines[@cols]]`, and their resolution
//! against the current text of the file.
use vstd::prelude::*;

use crate::text::{
    append_range, chars_of, is_blank, is_white, is_white_char, join_lines, lines_of, split_lines,
    string_of, views,
};

verus! {

/// A located span of a text file. Line bounds are either both present or
/// both absent; column bounds only matter when line bounds are present.
/// Nothing here is checked against any file: that happens on resolution.
#[derive(Debug, Clone, PartialEq, Eq)]
pub struct Partition {
    pub file_path: String,
    pub start_line: Option<usize>,
    pub end_line: Option<usize>,
    pub start_col: Option<usize>,
    pub end_col: Option<usize>,
}

/// What a [`Partition`] holds, with the path as characters.
pub struct PartitionView {
    pub file_path: Seq<char>,
    pub start_line: Option<usize>,
    pub end_line: Option<usize>,
    pub start_col: Option<usize>,
    pub end_col: Option<usize>,
}

impl View for Partition {
    type V = PartitionView;

    open spec fn view(&self) -> PartitionView {
        PartitionView {
            file_path: self.file_path@,
            start_line: self.start_line,
            end_line: self.end_line,
            start_col: self.start_col,
            end_col: self.end_col,
        }
    }
}

/// Why a reference string is not a partition.
#[derive(Debug, Clone, Copy, PartialEq, Eq, Structural)]
pub enum ParseError {
    /// The reference, or its path before the first `:`, is empty or blank.
    InvalidReference,
    /// A line or column range is not `""`, `N` or `N-M` with decimal `N`, `M`.
    InvalidRange,
}

/// What reading a partition's file gave.
pub enum SourceText {
    /// No file could be read at the path.
    Missing,
    /// The file exists but is not valid UTF-8.
    Undecodable,
    /// The file's whole text.
    Text(String),
}

/// Why a partition could not be resolved against its file.
#[derive(Debug, Clone, Copy, PartialEq, Eq, Structural)]
pub enum ResolveError {
    /// No file could be read at the path.
    FileNotFound,
    /// The file is not valid UTF-8.
    DecodeError,
    /// A line bound is 0 or beyond the file's last line.
    LineOutOfRange,
    /// The start line is after the end line, or, on a single line, the start
    /// column is after the end column.
    InvertedRange,
    /// A column bound is 0 or beyond the length of the line it applies to.
    ColumnOutOfRange,
}

/// A line of a selected span, cut by the column bounds if any (1-indexed,
/// inclusive): the first line from the start column on, the last line up to
/// the end column, a line that is both between the two, others whole.
pub open spec fn cut_line(
    line: Seq<char>,
    first: bool,
    last: bool,
    cols: Option<(usize, usize)>,
) -> Seq<char> {
    match cols {
        Some((sc, ec)) => if first && last {
            line.subrange(sc - 1, ec as int)
        } else if first {
            line.skip(sc - 1)
        } else if last {
            line.take(ec as int)
        } else {
            line
        },
        None => line,
    }
}

/// The lines `s..=e` (1-indexed) of `ls`, each cut by the column bounds.
pub open spec fn selected_lines(
    ls: Seq<Seq<char>>,
    s: int,
    e: int,
    cols: Option<(usize, usize)>,
) -> Seq<Seq<char>> {
    Seq::new(
        (e - s + 1) as nat,
        |k: int| cut_line(ls[s - 1 + k], k == 0, k == e - s, cols),
    )
}

/// The column bounds, if both are present.
pub open spec fn column_pair(p: PartitionView) -> Option<(usize, usize)> {
    match (p.start_col, p.end_col) {
        (Some(a), Some(b)) => Some((a, b)),
        _ => None,
    }
}

/// What a partition denotes in the text `text`: all of it without line
/// bounds, else the selected lines joined by `\n`.
pub open spec fn resolve(p: PartitionView, text: Seq<char>) -> Result<Seq<char>, ResolveError> {
    match (p.start_line, p.end_line) {
        (Some(s), Some(e)) => {
            let ls = lines_of(text);
            if s == 0 || e == 0 || s > ls.len() || e > ls.len() {
                Err(ResolveError::LineOutOfRange)
            } else if s > e {
                Err(ResolveError::InvertedRange)
            } else {
                match column_pair(p) {
                    Some((sc, ec)) => if !(1 <= sc <= ls[s - 1].len() && 1 <= ec <= ls[e
                        - 1].len()) {
                        Err(ResolveError::ColumnOutOfRange)
                    } else if s == e && sc > ec {
                        Err(ResolveError::InvertedRange)
                    } else {
                        Ok(join_lines(selected_lines(ls, s as int, e as int, column_pair(p))))
                    },
                    None => Ok(join_lines(selected_lines(ls, s as int, e as int, None))),
                }
            }
        },
        _ => Ok(text),
    }
}

/// What `extract_content` gives for a partition and the result of reading its file.
pub open spec fn extraction(p: PartitionView, source: SourceText) -> Result<Seq<char>, ResolveError> {
    match source {
        SourceText::Missing => Err(ResolveError::FileNotFound),
        SourceText::Undecodable => Err(ResolveError::DecodeError),
        SourceText::Text(t) => resolve(p, t@),
    }
}

/// `k` is the index of the first `c` in `s`, or `s.len()` if there is none.
pub open spec fn is_first_at(s: Seq<char>, c: char, k: int) -> bool {
    &&& 0 <= k <= s.len()
    &&& !s.take(k).contains(c)
    &&& (k == s.len() || s[k] == c)
}

/// The index of the first `c` in `s`, or `s.len()` if there is none.
pub open spec fn first_at(s: Seq<char>, c: char) -> int {
    choose|k: int| is_first_at(s, c, k)
}

pub proof fn lemma_first_at_unique(s: Seq<char>, c: char, k: int)
    requires
        is_first_at(s, c, k),
    ensures
        first_at(s, c) == k,
{
    let j = first_at(s, c);
    assert(is_first_at(s, c, j));
    if j < k {
        assert(s.take(k)[j] == c);
    } else if k < j {
        assert(s.take(j)[k] == c);
    }
}

pub open spec fn is_digit(c: char) -> bool {
    48 <= c as u32 <= 57
}

pub open spec fn digit_value(c: char) -> nat {
    (c as u32 - 48) as nat
}

/// The value of a string of decimal digits (0 for the empty string).
pub open spec fn digits_value(s: Seq<char>) -> nat
    decreases s.len(),
{
    if s.len() == 0 {
        0
    } else {
        digits_value(s.drop_last()) * 10 + digit_value(s.last())
    }
}

pub open spec fn all_digits(s: Seq<char>) -> bool {
    forall|i: int| 0 <= i < s.len() ==> is_digit(#[trigger] s[i])
}

/// What `str::parse::<usize>` accepts: an optional `+`, then one or more
/// decimal digits whose value fits in a `usize`.
pub open spec fn number_of(s: Seq<char>) -> Option<usize> {
    let d = if s.len() > 0 && s[0] == '+' {
        s.drop_first()
    } else {
        s
    };
    if d.len() > 0 && all_digits(d) && digits_value(d) <= usize::MAX {
        Some(digits_value(d) as usize)
    } else {
        None
    }
}

/// A range component: empty gives no bounds, `N` gives `N-N`, `N-M` gives
/// both; anything else is an invalid range.
pub open spec fn range_of(r: Seq<char>) -> Result<Option<(usize, usize)>, ParseError> {
    if r.len() == 0 {
        Ok(None)
    } else {
        let k = first_at(r, '-');
        if k == r.len() {
            match number_of(r) {
                Some(n) => Ok(Some((n, n))),
                None => Err(ParseError::InvalidRange),
            }
        } else if r.skip(k + 1).contains('-') {
            Err(ParseError::InvalidRange)
        } else {
            match (number_of(r.take(k)), number_of(r.skip(k + 1))) {
                (Some(a), Some(b)) => Ok(Some((a, b))),
                _ => Err(ParseError::InvalidRange),
            }
        }
    }
}

pub open spec fn lower(b: Option<(usize, usize)>) -> Option<usize> {
    match b {
        Some(p) => Some(p.0),
        None => None,
    }
}

pub open spec fn upper(b: Option<(usize, usize)>) -> Option<usize> {
    match b {
        Some(p) => Some(p.1),
        None => None,
    }
}

/// The partition that a reference string `path[:lines[@cols]]` denotes. The
/// path runs to the first `:`; the line range runs from there to the first
/// `@`; the column range is the rest.
pub open spec fn reference_of(s: Seq<char>) -> Result<PartitionView, ParseError> {
    let k = first_at(s, ':');
    let path = s.take(k);
    if is_blank(path) {
        Err(ParseError::InvalidReference)
    } else if k == s.len() {
        Ok(
            PartitionView {
                file_path: path,
                start_line: None,
                end_line: None,
                start_col: None,
                end_col: None,
            },
        )
    } else {
        let rest = s.skip(k + 1);
        let m = first_at(rest, '@');
        let cols = if m < rest.len() {
            rest.skip(m + 1)
        } else {
            Seq::empty()
        };
        match (range_of(rest.take(m)), range_of(cols)) {
            (Ok(l), Ok(c)) => Ok(
                PartitionView {
                    file_path: path,
                    start_line: lower(l),
                    end_line: upper(l),
                    start_col: lower(c),
                    end_col: upper(c),
                },
            ),
            _ => Err(ParseError::InvalidRange),
        }
    }
}


/// The decimal digit for `d < 10`.
pub open spec fn digit_char(d: nat) -> char {
    (d + 48) as char
}

/// `n` in decimal, without leading zeros.
pub open spec fn decimal(n: nat) -> Seq<char>
    decreases n,
{
    if n < 10 {
        seq![digit_char(n)]
    } else {
        decimal(n / 10).push(digit_char(n % 10))
    }
}

/// A bound pair as written in a reference: `a` when both are equal, else `a-b`.
pub open spec fn range_text(a: usize, b: usize) -> Seq<char> {
    if a == b {
        decimal(a as nat)
    } else {
        decimal(a as nat) + seq!['-'] + decimal(b as nat)
    }
}

/// The reference string of a partition: the path, then `:` and the line
/// range when both line bounds are present, then `@` and the column range
/// when both column bounds are present.
pub open spec fn reference_text(p: PartitionView) -> Seq<char> {
    let lines = match (p.start_line, p.end_line) {
        (Some(a), Some(b)) => seq![':'] + range_text(a, b),
        _ => Seq::empty(),
    };
    let cols = match (p.start_col, p.end_col) {
        (Some(a), Some(b)) => seq!['@'] + range_text(a, b),
        _ => Seq::empty(),
    };
    p.file_path + lines + cols
}

/// A partition that its reference string denotes exactly: a path that is not
/// blank and holds no `:`, bounds present in pairs, and column bounds only
/// beside line bounds.
pub open spec fn is_well_formed(p: PartitionView) -> bool {
    &&& !is_blank(p.file_path)
    &&& !p.file_path.contains(':')
    &&& (p.start_line is Some <==> p.end_line is Some)
    &&& (p.start_col is Some <==> p.end_col is Some)
    &&& (p.start_col is Some ==> p.start_line is Some)
}

proof fn lemma_decimal(n: nat)
    ensures
        decimal(n).len() > 0,
        all_digits(decimal(n)),
        digits_value(decimal(n)) == n,
    decreases n,
{
    let d = n % 10;
    assert(digit_char(d) as u32 == d + 48);
    if n >= 10 {
        lemma_decimal(n / 10);
        let s = decimal(n);
        assert(s.drop_last() =~= decimal(n / 10));
        assert(n == (n / 10) * 10 + n % 10) by (nonlinear_arith);
        assert(s.last() == digit_char(d));
        assert(digit_value(s.last()) == d);
        assert(digits_value(s) == digits_value(s.drop_last()) * 10 + digit_value(s.last()));
        assert(digits_value(s) == (n / 10) * 10 + d);
        assert forall|i: int| 0 <= i < s.len() implies is_digit(#[trigger] s[i]) by {
            if i < s.len() - 1 {
                assert(s[i] == decimal(n / 10)[i]);
            }
        }
    } else {
        assert(n % 10 == n);
        assert(digit_value(decimal(n).last()) == n);
        assert(decimal(n).drop_last() =~= Seq::<char>::empty());
        assert(digits_value(Seq::<char>::empty()) == 0);
    }
}

proof fn lemma_digits_lack(s: Seq<char>, c: char)
    requires
        all_digits(s),
        !is_digit(c),
    ensures
        !s.contains(c),
        is_first_at(s, c, s.len() as int),
        first_at(s, c) == s.len(),
{
    if s.contains(c) {
        let i = choose|i: int| 0 <= i < s.len() && s[i] == c;
        assert(is_digit(s[i]));
    }
    assert(s.take(s.len() as int) =~= s);
    lemma_first_at_unique(s, c, s.len() as int);
}

proof fn lemma_number_of_decimal(n: usize)
    ensures
        number_of(decimal(n as nat)) == Some(n),
{
    lemma_decimal(n as nat);
    assert(is_digit(decimal(n as nat)[0]));
}

proof fn lemma_range_round_trip(a: usize, b: usize)
    ensures
        range_of(range_text(a, b)) == Ok::<Option<(usize, usize)>, ParseError>(Some((a, b))),
        all_digits_or_dash(range_text(a, b)),
{
    lemma_decimal(a as nat);
    lemma_decimal(b as nat);
    lemma_number_of_decimal(a);
    lemma_number_of_decimal(b);
    let da = decimal(a as nat);
    let db = decimal(b as nat);
    let r = range_text(a, b);
    if a == b {
        lemma_digits_lack(da, '-');
    } else {
        lemma_digits_lack(da, '-');
        lemma_digits_lack(db, '-');
        assert(r.take(da.len() as int) =~= da);
        assert(r.skip(da.len() as int + 1) =~= db);
        assert(r.take(da.len() as int) == da.take(da.len() as int));
        lemma_first_at_unique(r, '-', da.len() as int);
    }
}

/// Every character of `s` is a decimal digit or `-`.
pub open spec fn all_digits_or_dash(s: Seq<char>) -> bool {
    forall|i: int| 0 <= i < s.len() ==> is_digit(#[trigger] s[i]) || s[i] == '-'
}

/// Parsing the reference string of a well-formed partition gives that
/// partition back.
pub proof fn lemma_parse_to_reference(p: PartitionView)
    requires
        is_well_formed(p),
    ensures
        reference_of(reference_text(p)) == Ok::<PartitionView, ParseError>(p),
{
    let s = reference_text(p);
    let path = p.file_path;
    let k = path.len() as int;
    match (p.start_line, p.end_line) {
        (Some(a), Some(b)) => {
            lemma_range_round_trip(a, b);
            let lt = range_text(a, b);
            assert(s.take(k) =~= path);
            assert(s[k] == ':');
            lemma_first_at_unique(s, ':', k);
            let rest = s.skip(k + 1);
            let m = lt.len() as int;
            assert(!lt.contains('@')) by {
                if lt.contains('@') {
                    let i = choose|i: int| 0 <= i < lt.len() && lt[i] == '@';
                    assert(is_digit(lt[i]) || lt[i] == '-');
                }
            }
            match (p.start_col, p.end_col) {
                (Some(c), Some(d)) => {
                    lemma_range_round_trip(c, d);
                    assert(rest =~= lt + seq!['@'] + range_text(c, d));
                    assert(rest.take(m) =~= lt);
                    assert(rest[m] == '@');
                    lemma_first_at_unique(rest, '@', m);
                    assert(rest.skip(m + 1) =~= range_text(c, d));
                },
                _ => {
                    assert(rest =~= lt);
                    assert(rest.take(m) =~= lt);
                    lemma_first_at_unique(rest, '@', m);
                    assert(range_of(Seq::<char>::empty()) == Ok::<
                        Option<(usize, usize)>,
                        ParseError,
                    >(None));
                },
            }
        },
        _ => {
            assert(s =~= path);
            assert(s.take(k) =~= s);
            lemma_first_at_unique(s, ':', k);
        },
    }
}

/// Line bounds that do not fit the file are refused: a start line of 0, or an
/// end line beyond the file's last line, gives `LineOutOfRange`; a start line
/// after the end line, both within the file, gives `InvertedRange`.
pub proof fn lemma_line_bounds(p: PartitionView, text: Seq<char>)
    requires
        p.start_line is Some,
        p.end_line is Some,
    ensures
        p.start_line == Some(0usize) ==> resolve(p, text) == Err::<Seq<char>, ResolveError>(
            ResolveError::LineOutOfRange,
        ),
        p.end_line->0 > lines_of(text).len() ==> resolve(p, text) == Err::<
            Seq<char>,
            ResolveError,
        >(ResolveError::LineOutOfRange),
        1 <= p.end_line->0 < p.start_line->0 <= lines_of(text).len() ==> resolve(p, text)
            == Err::<Seq<char>, ResolveError>(ResolveError::InvertedRange),
{
}

fn is_blank_range(s: &[char], a: usize, b: usize) -> (r: bool)
    requires
        a <= b <= s@.len(),
    ensures
        r == is_blank(s@.subrange(a as int, b as int)),
{
    let mut i = a;
    while i < b
        invariant
            a <= i <= b <= s@.len(),
            forall|j: int| a <= j < i ==> is_white(#[trigger] s@[j]),
        decreases b - i,
    {
        if !is_white_char(s[i]) {
            assert(s@.subrange(a as int, b as int)[i - a] == s@[i as int]);
            return false;
        }
        i = i + 1;
    }
    assert forall|j: int| 0 <= j < b - a implies is_white(
        #[trigger] s@.subrange(a as int, b as int)[j],
    ) by {
        assert(s@.subrange(a as int, b as int)[j] == s@[a + j]);
    }
    true
}

/// The index of the first `c` in `s[a..b]`, or `b` when there is none.
fn find_char(s: &[char], a: usize, b: usize, c: char) -> (k: usize)
    requires
        a <= b <= s@.len(),
    ensures
        a <= k <= b,
        is_first_at(s@.subrange(a as int, b as int), c, k - a),
        first_at(s@.subrange(a as int, b as int), c) == k - a,
{
    let mut k = a;
    while k < b && s[k] != c
        invariant
            a <= k <= b <= s@.len(),
            forall|j: int| a <= j < k ==> s@[j] != c,
        decreases b - k,
    {
        k = k + 1;
    }
    proof {
        let t = s@.subrange(a as int, b as int);
        assert(t.take(k - a) =~= s@.subrange(a as int, k as int));
        assert(!t.take(k - a).contains(c));
        lemma_first_at_unique(t, c, k - a);
    }
    k
}

proof fn lemma_digits_step(s: Seq<char>, i: int)
    requires
        0 <= i < s.len(),
    ensures
        digits_value(s.take(i + 1)) == digits_value(s.take(i)) * 10 + digit_value(s[i]),
{
    assert(s.take(i + 1).drop_last() =~= s.take(i));
}

proof fn lemma_digits_grow(s: Seq<char>, i: int)
    requires
        0 <= i <= s.len(),
    ensures
        digits_value(s.take(i)) <= digits_value(s),
    decreases s.len() - i,
{
    if i < s.len() {
        lemma_digits_step(s, i);
        lemma_digits_grow(s, i + 1);
    } else {
        assert(s.take(i) =~= s);
    }
}

/// `number_of`, computed on `s[a..b]`.
fn parse_number(s: &[char], a: usize, b: usize) -> (r: Option<usize>)
    requires
        a <= b <= s@.len(),
    ensures
        r == number_of(s@.subrange(a as int, b as int)),
{
    let ghost t = s@.subrange(a as int, b as int);
    let mut i = a;
    if i < b && s[i] == '+' {
        i = i + 1;
        assert(t.drop_first() =~= s@.subrange(i as int, b as int));
    } else {
        assert(t =~= s@.subrange(i as int, b as int));
    }
    let ghost d = s@.subrange(i as int, b as int);
    assert(d == (if t.len() > 0 && t[0] == '+' {
        t.drop_first()
    } else {
        t
    }));
    if i == b {
        return None;
    }
    let mut acc: usize = 0;
    let mut j = i;
    while j < b
        invariant
            a <= i <= j <= b <= s@.len(),
            d == s@.subrange(i as int, b as int),
            t == s@.subrange(a as int, b as int),
            d == (if t.len() > 0 && t[0] == '+' {
                t.drop_first()
            } else {
                t
            }),
            d.len() > 0,
            forall|k: int| i <= k < j ==> is_digit(#[trigger] s@[k]),
            acc == digits_value(d.take(j - i)),
        decreases b - j,
    {
        let c = s[j];
        assert(d[j - i] == c);
        let u = c as u32;
        if !(48 <= u && u <= 57) {
            assert(!is_digit(d[j - i]));
            return None;
        }
        proof {
            lemma_digits_step(d, j - i);
        }
        let next = match acc.checked_mul(10) {
            Some(m) => m.checked_add((u - 48) as usize),
            None => None,
        };
        match next {
            Some(v) => {
                acc = v;
            },
            None => {
                proof {
                    lemma_digits_grow(d, j - i + 1);
                    assert(digit_value(d[j - i]) == (u - 48) as nat);
                    assert(digits_value(d.take(j - i + 1)) > usize::MAX);
                }
                return None;
            },
        }
        j = j + 1;
    }
    assert(d.take(j - i) =~= d);
    assert(all_digits(d));
    Some(acc)
}

/// `range_of`, computed on `s[a..b]`.
fn parse_range(s: &[char], a: usize, b: usize) -> (r: Result<Option<(usize, usize)>, ParseError>)
    requires
        a <= b <= s@.len(),
    ensures
        r == range_of(s@.subrange(a as int, b as int)),
{
    let ghost t = s@.subrange(a as int, b as int);
    if a == b {
        return Ok(None);
    }
    let k = find_char(s, a, b, '-');
    if k == b {
        return match parse_number(s, a, b) {
            Some(n) => Ok(Some((n, n))),
            None => Err(ParseError::InvalidRange),
        };
    }
    assert(t.take(k - a) =~= s@.subrange(a as int, k as int));
    assert(t.skip(k - a + 1) =~= s@.subrange(k + 1, b as int));
    let k2 = find_char(s, k + 1, b, '-');
    let ghost u = s@.subrange(k + 1, b as int);
    if k2 < b {
        assert(u[k2 - k - 1] == '-');
        return Err(ParseError::InvalidRange);
    }
    assert(u.take(u.len() as int) =~= u);
    match (parse_number(s, a, k), parse_number(s, k + 1, b)) {
        (Some(x), Some(y)) => Ok(Some((x, y))),
        _ => Err(ParseError::InvalidRange),
    }
}

/// Appends `n` in decimal to `out`.
fn push_decimal(out: &mut Vec<char>, n: usize)
    ensures
        final(out)@ == old(out)@ + decimal(n as nat),
    decreases n,
{
    if n >= 10 {
        push_decimal(out, n / 10);
    }
    let d = (n % 10) as u8;
    let c = (d + 48) as char;
    assert(c == digit_char((n % 10) as nat));
    out.push(c);
    proof {
        if n < 10 {
            assert(n % 10 == n);
        }
    }
    assert(final(out)@ =~= old(out)@ + decimal(n as nat));
}

/// Appends `range_text(a, b)` to `out`.
fn push_range(out: &mut Vec<char>, a: usize, b: usize)
    ensures
        final(out)@ == old(out)@ + range_text(a, b),
{
    push_decimal(out, a);
    if a != b {
        out.push('-');
        push_decimal(out, b);
    }
    assert(final(out)@ =~= old(out)@ + range_text(a, b));
}

impl Partition {
    /// Parses a reference `path[:lines[@cols]]`, where each range is empty,
    /// `N` (meaning `N-N`) or `N-M`. Bounds are not checked against each
    /// other or against any file.
    pub fn parse(partition_str: &str) -> (r: Result<Partition, ParseError>)
        ensures
            match r {
                Ok(p) => reference_of(partition_str@) == Ok::<PartitionView, ParseError>(p@),
                Err(e) => reference_of(partition_str@) == Err::<PartitionView, ParseError>(e),
            },
    {
        let cs = chars_of(partition_str);
        let n = cs.len();
        let ghost s = partition_str@;
        assert(s.subrange(0, n as int) =~= s);
        let k = find_char(&cs, 0, n, ':');
        assert(s.take(k as int) =~= s.subrange(0, k as int));
        if is_blank_range(&cs, 0, k) {
            return Err(ParseError::InvalidReference);
        }
        let mut path_chars: Vec<char> = Vec::new();
        append_range(&mut path_chars, &cs, 0, k);
        assert(path_chars@ =~= s.take(k as int));
        let file_path = string_of(&path_chars);
        if k == n {
            return Ok(
                Partition {
                    file_path,
                    start_line: None,
                    end_line: None,
                    start_col: None,
                    end_col: None,
                },
            );
        }
        let ghost rest = s.skip(k + 1);
        assert(rest =~= s.subrange(k + 1, n as int));
        let m = find_char(&cs, k + 1, n, '@');
        assert(rest.take(m - k - 1) =~= s.subrange(k + 1, m as int));
        let lines = parse_range(&cs, k + 1, m);
        let cols = if m < n {
            assert(rest.skip(m - k) =~= s.subrange(m + 1, n as int));
            parse_range(&cs, m + 1, n)
        } else {
            assert(Seq::<char>::empty() =~= s.subrange(n as int, n as int));
            parse_range(&cs, n, n)
        };
        match (lines, cols) {
            (Ok(l), Ok(c)) => {
                let (start_line, end_line) = match l {
                    Some((x, y)) => (Some(x), Some(y)),
                    None => (None, None),
                };
                let (start_col, end_col) = match c {
                    Some((x, y)) => (Some(x), Some(y)),
                    None => (None, None),
                };
                Ok(Partition { file_path, start_line, end_line, start_col, end_col })
            },
            _ => Err(ParseError::InvalidRange),
        }
    }
    /// The reference string of this partition, which [`Partition::parse`]
    /// reads back into the same partition when it is well formed.
    pub fn to_string(&self) -> (r: String)
        ensures
            r@ == reference_text(self@),
    {
        let mut out = chars_of(self.file_path.as_str());
        if let (Some(a), Some(b)) = (self.start_line, self.end_line) {
            out.push(':');
            push_range(&mut out, a, b);
        }
        if let (Some(a), Some(b)) = (self.start_col, self.end_col) {
            out.push('@');
            push_range(&mut out, a, b);
        }
        assert(out@ =~= reference_text(self@));
        string_of(&out)
    }
    /// The content this partition denotes, given what reading its file gave.
    pub fn extract_content(&self, source: &SourceText) -> (r: Result<String, ResolveError>)
        ensures
            match r {
                Ok(c) => extraction(self@, *source) == Ok::<Seq<char>, ResolveError>(c@),
                Err(e) => extraction(self@, *source) == Err::<Seq<char>, ResolveError>(e),
            },
    {
        let text = match source {
            SourceText::Missing => {
                return Err(ResolveError::FileNotFound);
            },
            SourceText::Undecodable => {
                return Err(ResolveError::DecodeError);
            },
            SourceText::Text(t) => t,
        };
        let (s, e) = match (self.start_line, self.end_line) {
            (Some(s), Some(e)) => (s, e),
            _ => {
                return Ok(text.clone());
            },
        };
        let cs = chars_of(text.as_str());
        let ls = split_lines(&cs);
        let ghost lv = views(ls@);
        assert(lv == lines_of(text@));
        let n = ls.len();
        if s == 0 || e == 0 || s > n || e > n {
            return Err(ResolveError::LineOutOfRange);
        }
        if s > e {
            return Err(ResolveError::InvertedRange);
        }
        let cols = match (self.start_col, self.end_col) {
            (Some(sc), Some(ec)) => Some((sc, ec)),
            _ => None,
        };
        assert(cols == column_pair(self@));
        if let Some((sc, ec)) = cols {
            assert(ls[s - 1]@ == lv[s - 1]);
            assert(ls[e - 1]@ == lv[e - 1]);
            if sc == 0 || sc > ls[s - 1].len() || ec == 0 || ec > ls[e - 1].len() {
                return Err(ResolveError::ColumnOutOfRange);
            }
            if s == e && sc > ec {
                return Err(ResolveError::InvertedRange);
            }
        }
        let ghost sel = selected_lines(lv, s as int, e as int, cols);
        let mut out: Vec<char> = Vec::new();
        let mut i = s - 1;
        while i < e
            invariant
                1 <= s <= e <= n == ls@.len(),
                s - 1 <= i <= e,
                lv == views(ls@),
                sel == selected_lines(lv, s as int, e as int, cols),
                cols matches Some((sc, ec)) ==> 1 <= sc <= lv[s - 1].len() && 1 <= ec <= lv[e
                    - 1].len() && (s == e ==> sc <= ec),
                out@ == join_lines(sel.take(i - s + 1)),
            decreases e - i,
        {
            let ghost k = i - s + 1;
            let line = &ls[i];
            assert(line@ == lv[i as int]);
            let lo = match cols {
                Some((sc, _)) => if i == s - 1 {
                    sc - 1
                } else {
                    0
                },
                None => 0,
            };
            let hi = match cols {
                Some((_, ec)) => if i == e - 1 {
                    ec
                } else {
                    line.len()
                },
                None => line.len(),
            };
            assert(line@.subrange(lo as int, hi as int) == sel[k]);
            if i > s - 1 {
                out.push('\n');
            }
            append_range(&mut out, line.as_slice(), lo, hi);
            proof {
                assert(sel.take(k + 1).drop_last() =~= sel.take(k));
                if k == 0 {
                    assert(sel.take(1) =~= seq![sel[0]]);
                }
            }
            i = i + 1;
        }
        assert(sel.take(e - s + 1) =~= sel);
        Ok(string_of(&out))
    }
}

} // verus!
