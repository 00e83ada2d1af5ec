//! Reading the command line's block-size and path arguments.

use vstd::prelude::*;
use vstd::string::{StrSliceExecFns, StringExecFns};

verus! {

/// Why a decimal number could not be read, as Rust's integer parsing
/// reports it.
#[derive(Debug, Clone, Copy, PartialEq, Eq)]
pub enum IntErrorKind {
    /// There were no characters to read.
    Empty,
    /// A character is not a decimal digit (or a sign stands alone).
    InvalidDigit,
    /// The number does not fit in a `usize`.
    PosOverflow,
}

/// Why a block-size argument was rejected.
#[derive(Debug)]
pub enum BlockSizeError {
    /// The argument holds nothing but white space.
    Empty,
    /// The part before the unit suffix is not a number; `text` is that part
    /// as written.
    InvalidNumber { text: String, kind: IntErrorKind },
}

/// A `BlockSizeError` as plain values.
pub enum BlockSizeFault {
    Empty,
    InvalidNumber(Seq<char>, IntErrorKind),
}

impl View for BlockSizeError {
    type V = BlockSizeFault;

    open spec fn view(&self) -> BlockSizeFault {
        match self {
            BlockSizeError::Empty => BlockSizeFault::Empty,
            BlockSizeError::InvalidNumber { text, kind } => BlockSizeFault::InvalidNumber(
                text@,
                *kind,
            ),
        }
    }
}

/// The text with which Rust's integer parsing describes `kind`.
pub open spec fn int_error_text(kind: IntErrorKind) -> Seq<char> {
    match kind {
        IntErrorKind::Empty => "cannot parse integer from empty string"@,
        IntErrorKind::InvalidDigit => "invalid digit found in string"@,
        IntErrorKind::PosOverflow => "number too large to fit in target type"@,
    }
}

/// The message that reports a rejected block-size argument.
pub open spec fn block_size_message(e: BlockSizeFault) -> Seq<char> {
    match e {
        BlockSizeFault::Empty => "Block size cannot be empty"@,
        BlockSizeFault::InvalidNumber(text, kind) => "Invalid block size string '"@ + text + "': "@
            + int_error_text(kind),
    }
}

impl IntErrorKind {
    /// The text with which Rust's integer parsing describes this error.
    pub fn description(&self) -> (d: &'static str)
        ensures
            d@ == int_error_text(*self),
    {
        match self {
            IntErrorKind::Empty => "cannot parse integer from empty string",
            IntErrorKind::InvalidDigit => "invalid digit found in string",
            IntErrorKind::PosOverflow => "number too large to fit in target type",
        }
    }
}

impl BlockSizeError {
    /// The message that reports this error, such as
    /// "Invalid block size string 'x': invalid digit found in string".
    pub fn message(&self) -> (m: String)
        ensures
            m@ == block_size_message(self@),
    {
        match self {
            BlockSizeError::Empty => String::from_str("Block size cannot be empty"),
            BlockSizeError::InvalidNumber { text, kind } => {
                let mut m = String::from_str("Invalid block size string '");
                m.append(text.as_str());
                m.append("': ");
                m.append(kind.description());
                m
            },
        }
    }
}

pub const KIB: usize = 1024;
pub const MIB: usize = 1048576;
pub const GIB: usize = 1073741824;

/// Whether `c` is white space in the sense of Unicode's White_Space
/// property, which is what Rust's `char::is_whitespace` tests.
pub open spec fn is_white_space(c: char) -> bool {
    let u = c as u32;
    ||| 0x9 <= u <= 0xD
    ||| u == 0x20
    ||| u == 0x85
    ||| u == 0xA0
    ||| u == 0x1680
    ||| 0x2000 <= u <= 0x200A
    ||| u == 0x2028
    ||| u == 0x2029
    ||| u == 0x202F
    ||| u == 0x205F
    ||| u == 0x3000
}

/// `s` without its leading white space.
pub open spec fn trim_start(s: Seq<char>) -> Seq<char>
    decreases s.len(),
{
    if s.len() > 0 && is_white_space(s[0]) {
        trim_start(s.drop_first())
    } else {
        s
    }
}

/// `s` without its trailing white space.
pub open spec fn trim_end(s: Seq<char>) -> Seq<char>
    decreases s.len(),
{
    if s.len() > 0 && is_white_space(s.last()) {
        trim_end(s.drop_last())
    } else {
        s
    }
}

/// `s` without leading and trailing white space, as `str::trim` gives it.
pub open spec fn trim(s: Seq<char>) -> Seq<char> {
    trim_end(trim_start(s))
}

/// Whether `s` ends with the characters `a`, `b`.
pub open spec fn ends_with_pair(s: Seq<char>, a: char, b: char) -> bool {
    s.len() >= 2 && s[s.len() - 2] == a && s[s.len() - 1] == b
}

/// Whether `s` ends with the character `a`.
pub open spec fn ends_with_char(s: Seq<char>, a: char) -> bool {
    s.len() >= 1 && s[s.len() - 1] == a
}

/// Splits a block-size argument into its number part and the multiplier of
/// its unit suffix: "GB"/"gb"/"G"/"g" for GiB, "MB"/"mb"/"M"/"m" for MiB,
/// "KB"/"kb"/"K"/"k" for KiB, "B"/"b" for bytes, and no suffix for bytes.
/// The suffixes are tried in that order.
pub open spec fn split_unit(s: Seq<char>) -> (Seq<char>, usize) {
    if ends_with_pair(s, 'G', 'B') || ends_with_pair(s, 'g', 'b') {
        (s.take(s.len() - 2), GIB)
    } else if ends_with_char(s, 'G') || ends_with_char(s, 'g') {
        (s.take(s.len() - 1), GIB)
    } else if ends_with_pair(s, 'M', 'B') || ends_with_pair(s, 'm', 'b') {
        (s.take(s.len() - 2), MIB)
    } else if ends_with_char(s, 'M') || ends_with_char(s, 'm') {
        (s.take(s.len() - 1), MIB)
    } else if ends_with_pair(s, 'K', 'B') || ends_with_pair(s, 'k', 'b') {
        (s.take(s.len() - 2), KIB)
    } else if ends_with_char(s, 'K') || ends_with_char(s, 'k') {
        (s.take(s.len() - 1), KIB)
    } else if ends_with_char(s, 'B') || ends_with_char(s, 'b') {
        (s.take(s.len() - 1), 1)
    } else {
        (s, 1)
    }
}

/// Whether `c` is an ASCII decimal digit.
pub open spec fn is_digit(c: char) -> bool {
    0x30 <= (c as u32) <= 0x39
}

/// The value of the decimal digit `c`.
pub open spec fn digit_value(c: char) -> nat {
    ((c as u32) - 0x30) as nat
}

/// Reads the decimal digits `ds` after the value `acc` read so far, from
/// left to right, stopping at the first character that is not a digit or
/// at the first digit that takes the value past `usize::MAX`.
pub open spec fn parse_digits(ds: Seq<char>, acc: nat) -> Result<usize, IntErrorKind>
    decreases ds.len(),
{
    if ds.len() == 0 {
        Ok(acc as usize)
    } else if !is_digit(ds[0]) {
        Err(IntErrorKind::InvalidDigit)
    } else {
        let v = acc * 10 + digit_value(ds[0]);
        if v > usize::MAX {
            Err(IntErrorKind::PosOverflow)
        } else {
            parse_digits(ds.drop_first(), v as nat)
        }
    }
}

/// What `str::parse::<usize>` gives for `s`: an optional leading '+'
/// followed by at least one decimal digit, with no other character.
pub open spec fn parse_usize(s: Seq<char>) -> Result<usize, IntErrorKind> {
    if s.len() == 0 {
        Err(IntErrorKind::Empty)
    } else if (s[0] == '+' || s[0] == '-') && s.len() == 1 {
        Err(IntErrorKind::InvalidDigit)
    } else if s[0] == '+' {
        parse_digits(s.drop_first(), 0)
    } else {
        parse_digits(s, 0)
    }
}

/// A block-size argument read as its number and the multiplier of its unit.
///
/// The argument is trimmed of white space; if nothing is left it is
/// rejected as empty.  Otherwise the unit suffix is split off and the rest,
/// trimmed again, must be a decimal number.
pub open spec fn spec_split_block_size(s: Seq<char>) -> Result<(usize, usize), BlockSizeFault> {
    let t = trim(s);
    if t.len() == 0 {
        Err(BlockSizeFault::Empty)
    } else {
        let (num, mult) = split_unit(t);
        match parse_usize(trim(num)) {
            Ok(n) => Ok((n, mult)),
            Err(kind) => Err(BlockSizeFault::InvalidNumber(num, kind)),
        }
    }
}

/// The block size in bytes that the argument `s` asks for.
pub open spec fn spec_parse_block_size(s: Seq<char>) -> Result<usize, BlockSizeFault> {
    match spec_split_block_size(s) {
        Ok((n, mult)) => Ok((n * mult) as usize),
        Err(e) => Err(e),
    }
}

/// Whether the block size that `s` asks for fits in a `usize`.
pub open spec fn block_size_fits(s: Seq<char>) -> bool {
    match spec_split_block_size(s) {
        Ok((n, mult)) => n * mult <= usize::MAX,
        Err(_) => true,
    }
}

fn chars_of(s: &str) -> (cs: Vec<char>)
    ensures
        cs@ == s@,
{
    let n = s.unicode_len();
    let mut cs: Vec<char> = Vec::new();
    let mut i: usize = 0;
    while i < n
        invariant
            n == s@.len(),
            i <= n,
            cs@ == s@.take(i as int),
        decreases n - i,
    {
        let c = s.get_char(i);
        cs.push(c);
        i = i + 1;
        assert(cs@ =~= s@.take(i as int));
    }
    assert(s@.take(n as int) =~= s@);
    cs
}

fn white_space(c: char) -> (b: bool)
    ensures
        b == is_white_space(c),
{
    let u = c as u32;
    (0x9 <= u && u <= 0xD) || u == 0x20 || u == 0x85 || u == 0xA0 || u == 0x1680 || (0x2000 <= u
        && u <= 0x200A) || u == 0x2028 || u == 0x2029 || u == 0x202F || u == 0x205F || u == 0x3000
}

/// The bounds of `cs[a..b]` with its leading and trailing white space cut.
fn trim_bounds(cs: &Vec<char>, a: usize, b: usize) -> (r: (usize, usize))
    requires
        a <= b <= cs@.len(),
    ensures
        a <= r.0 <= r.1 <= b,
        cs@.subrange(r.0 as int, r.1 as int) == trim(cs@.subrange(a as int, b as int)),
{
    let mut i = a;
    while i < b && white_space(cs[i])
        invariant
            a <= i <= b <= cs@.len(),
            trim_start(cs@.subrange(a as int, b as int)) == trim_start(
                cs@.subrange(i as int, b as int),
            ),
        decreases b - i,
    {
        assert(cs@.subrange(i as int, b as int).drop_first() =~= cs@.subrange(i + 1, b as int));
        i = i + 1;
    }
    let mut j = b;
    while j > i && white_space(cs[j - 1])
        invariant
            a <= i <= j <= b <= cs@.len(),
            trim_end(cs@.subrange(i as int, b as int)) == trim_end(cs@.subrange(i as int, j as int)),
        decreases j - i,
    {
        assert(cs@.subrange(i as int, j as int).drop_last() =~= cs@.subrange(i as int, j - 1));
        j = j - 1;
    }
    (i, j)
}

/// Reads `cs[a..b]` as `str::parse::<usize>` does.
fn parse_usize_at(cs: &Vec<char>, a: usize, b: usize) -> (r: Result<usize, IntErrorKind>)
    requires
        a <= b <= cs@.len(),
    ensures
        r == parse_usize(cs@.subrange(a as int, b as int)),
{
    let ghost s = cs@.subrange(a as int, b as int);
    if a == b {
        return Err(IntErrorKind::Empty);
    }
    let first = cs[a];
    if (first == '+' || first == '-') && b - a == 1 {
        return Err(IntErrorKind::InvalidDigit);
    }
    let mut i = if first == '+' {
        a + 1
    } else {
        a
    };
    assert(first == '+' ==> s.drop_first() =~= cs@.subrange(i as int, b as int));
    assert(first != '+' ==> s =~= cs@.subrange(i as int, b as int));
    let mut acc: usize = 0;
    while i < b
        invariant
            a <= i <= b <= cs@.len(),
            s == cs@.subrange(a as int, b as int),
            parse_usize(s) == parse_digits(cs@.subrange(i as int, b as int), acc as nat),
        decreases b - i,
    {
        let c = cs[i];
        let ghost rest = cs@.subrange(i as int, b as int);
        assert(rest[0] == c);
        let u = c as u32;
        if !(0x30 <= u && u <= 0x39) {
            assert(!is_digit(c));
            return Err(IntErrorKind::InvalidDigit);
        }
        assert(is_digit(c));
        let d = (u - 0x30) as usize;
        assert(d == digit_value(c));
        match acc.checked_mul(10) {
            None => {
                return Err(IntErrorKind::PosOverflow);
            },
            Some(m) => {
                match m.checked_add(d) {
                    None => {
                        return Err(IntErrorKind::PosOverflow);
                    },
                    Some(v) => {
                        assert(cs@.subrange(i as int, b as int).drop_first() =~= cs@.subrange(
                            i + 1,
                            b as int,
                        ));
                        acc = v;
                    },
                }
            },
        }
        i = i + 1;
    }
    Ok(acc)
}

/// Reads a block-size argument as its number and the multiplier of its unit
/// suffix, without multiplying them.
pub fn split_block_size(s: &str) -> (r: Result<(usize, usize), BlockSizeError>)
    ensures
        match r {
            Ok(v) => spec_split_block_size(s@) == Ok::<(usize, usize), BlockSizeFault>(v),
            Err(e) => spec_split_block_size(s@) == Err::<(usize, usize), BlockSizeFault>(e@),
        },
{
    let cs = chars_of(s);
    let (a, b) = trim_bounds(&cs, 0, cs.len());
    assert(cs@.subrange(0, cs@.len() as int) =~= s@);
    let ghost t = cs@.subrange(a as int, b as int);
    if a == b {
        return Err(BlockSizeError::Empty);
    }
    let n = b - a;
    let last = cs[b - 1];
    let pair = n >= 2;
    let prev = if pair {
        cs[b - 2]
    } else {
        last
    };
    assert(t.len() == n);
    assert(t[t.len() - 1] == last);
    assert(pair ==> t[t.len() - 2] == prev);
    let (cut, mult): (usize, usize) = if pair && ((prev == 'G' && last == 'B') || (prev == 'g'
        && last == 'b')) {
        (2, GIB)
    } else if last == 'G' || last == 'g' {
        (1, GIB)
    } else if pair && ((prev == 'M' && last == 'B') || (prev == 'm' && last == 'b')) {
        (2, MIB)
    } else if last == 'M' || last == 'm' {
        (1, MIB)
    } else if pair && ((prev == 'K' && last == 'B') || (prev == 'k' && last == 'b')) {
        (2, KIB)
    } else if last == 'K' || last == 'k' {
        (1, KIB)
    } else if last == 'B' || last == 'b' {
        (1, 1)
    } else {
        (0, 1)
    };
    let end = b - cut;
    assert(split_unit(t) == (cs@.subrange(a as int, end as int), mult)) by {
        if n >= 2 {
            assert(t.take(t.len() - 2) =~= cs@.subrange(a as int, b - 2));
        }
        assert(t.take(t.len() - 1) =~= cs@.subrange(a as int, b - 1));
        assert(t =~= cs@.subrange(a as int, b as int));
    }
    let (na, nb) = trim_bounds(&cs, a, end);
    match parse_usize_at(&cs, na, nb) {
        Ok(v) => Ok((v, mult)),
        Err(kind) => {
            let text = s.substring_char(a, end).to_owned();
            Err(BlockSizeError::InvalidNumber { text, kind })
        },
    }
}

/// Reads a block-size argument such as "16MB", "64m", "4 KB" or "1048576"
/// as a number of bytes.
pub fn parse_block_size(s: &str) -> (r: Result<usize, BlockSizeError>)
    requires
        block_size_fits(s@),
    ensures
        match r {
            Ok(v) => spec_parse_block_size(s@) == Ok::<usize, BlockSizeFault>(v),
            Err(e) => spec_parse_block_size(s@) == Err::<usize, BlockSizeFault>(e@),
        },
{
    match split_block_size(s) {
        Ok((n, mult)) => Ok(n * mult),
        Err(e) => Err(e),
    }
}

/// Whether a path argument stands for a standard stream: `p` is `None` when
/// no path was given, and `Some(None)` for a path that is not valid Unicode.
pub open spec fn names_std_stream(p: Option<Option<&str>>) -> bool {
    match p {
        None => true,
        Some(None) => false,
        Some(Some(t)) => t@ == seq!['-'],
    }
}

fn is_dash(t: &str) -> (b: bool)
    ensures
        b == (t@ == seq!['-']),
{
    if t.unicode_len() == 1 {
        let c = t.get_char(0);
        if c == '-' {
            assert(t@ =~= seq!['-']);
            true
        } else {
            false
        }
    } else {
        false
    }
}

/// Whether the input path argument means standard input: it is absent or "-".
pub fn is_stdin_path(p: Option<Option<&str>>) -> (b: bool)
    ensures
        b == names_std_stream(p),
{
    match p {
        None => true,
        Some(path) => match path {
            None => false,
            Some(t) => is_dash(t),
        },
    }
}

/// Whether the output path argument means standard output: it is absent or "-".
pub fn is_stdout_path(p: Option<Option<&str>>) -> (b: bool)
    ensures
        b == names_std_stream(p),
{
    match p {
        None => true,
        Some(path) => match path {
            None => false,
            Some(t) => is_dash(t),
        },
    }
}

/// The value of the decimal numeral `ds`, read as usual: the last digit is
/// the units.
pub open spec fn decimal_value(ds: Seq<char>) -> nat
    decreases ds.len(),
{
    if ds.len() == 0 {
        0
    } else {
        10 * decimal_value(ds.drop_last()) + digit_value(ds.last())
    }
}

/// Whether every character of `ds` is a decimal digit.
pub open spec fn all_digits(ds: Seq<char>) -> bool {
    forall|i: int| 0 <= i < ds.len() ==> #[trigger] is_digit(ds[i])
}

/// Whether `unit` is a unit suffix that the block-size argument accepts,
/// and `mult` the number of bytes it stands for.
pub open spec fn unit_means(unit: Seq<char>, mult: nat) -> bool {
    ||| (unit == seq!['G', 'B'] || unit == seq!['g', 'b'] || unit == seq!['G'] || unit == seq!['g'])
        && mult == 1024 * 1024 * 1024
    ||| (unit == seq!['M', 'B'] || unit == seq!['m', 'b'] || unit == seq!['M'] || unit == seq!['m'])
        && mult == 1024 * 1024
    ||| (unit == seq!['K', 'B'] || unit == seq!['k', 'b'] || unit == seq!['K'] || unit == seq!['k'])
        && mult == 1024
    ||| (unit == seq!['B'] || unit == seq!['b'] || unit.len() == 0) && mult == 1
}

proof fn lemma_prefix_value_le(ds: Seq<char>, j: int)
    requires
        0 <= j <= ds.len(),
    ensures
        decimal_value(ds.take(j)) <= decimal_value(ds),
    decreases ds.len(),
{
    if j < ds.len() {
        assert(ds.drop_last().take(j) =~= ds.take(j));
        lemma_prefix_value_le(ds.drop_last(), j);
    } else {
        assert(ds.take(j) =~= ds);
    }
}

proof fn lemma_parse_digits_from(ds: Seq<char>, i: int)
    requires
        0 <= i <= ds.len(),
        all_digits(ds),
        decimal_value(ds) <= usize::MAX,
    ensures
        parse_digits(ds, 0) == parse_digits(ds.skip(i), decimal_value(ds.take(i))),
    decreases i,
{
    if i == 0 {
        assert(ds.skip(0) =~= ds);
        assert(ds.take(0) =~= Seq::<char>::empty());
    } else {
        lemma_parse_digits_from(ds, i - 1);
        let rest = ds.skip(i - 1);
        assert(rest[0] == ds[i - 1]);
        assert(is_digit(ds[i - 1]));
        assert(ds.take(i).drop_last() =~= ds.take(i - 1));
        assert(ds.take(i).last() == ds[i - 1]);
        lemma_prefix_value_le(ds, i);
        assert(rest.drop_first() =~= ds.skip(i));
    }
}

/// Reading a decimal numeral whose value fits in a `usize` gives its value.
pub proof fn lemma_parse_numeral(ds: Seq<char>)
    requires
        ds.len() > 0,
        all_digits(ds),
        decimal_value(ds) <= usize::MAX,
    ensures
        parse_usize(ds) == Ok::<usize, IntErrorKind>(decimal_value(ds) as usize),
{
    lemma_parse_digits_from(ds, ds.len() as int);
    assert(ds.skip(ds.len() as int) =~= Seq::<char>::empty());
    assert(ds.take(ds.len() as int) =~= ds);
    assert(is_digit(ds[0]));
}

proof fn lemma_trim_no_white_space(s: Seq<char>)
    requires
        forall|i: int| 0 <= i < s.len() ==> !is_white_space(#[trigger] s[i]),
    ensures
        trim(s) == s,
{
    if s.len() > 0 {
        assert(!is_white_space(s[0]));
        assert(!is_white_space(s[s.len() - 1]));
    }
}

/// A block-size argument written as a decimal numeral followed by a unit
/// suffix (or none) asks for the numeral's value times the unit's size in
/// bytes: GiB for "GB", "gb", "G", "g"; MiB for "MB", "mb", "M", "m"; KiB for
/// "KB", "kb", "K", "k"; one byte for "B", "b" or no suffix.
pub proof fn lemma_block_size_of_numeral_and_unit(ds: Seq<char>, unit: Seq<char>, mult: nat)
    requires
        ds.len() > 0,
        all_digits(ds),
        unit_means(unit, mult),
        decimal_value(ds) * mult <= usize::MAX,
    ensures
        spec_split_block_size(ds + unit) == Ok::<(usize, usize), BlockSizeFault>(
            (decimal_value(ds) as usize, mult as usize),
        ),
        spec_parse_block_size(ds + unit) == Ok::<usize, BlockSizeFault>(
            (decimal_value(ds) * mult) as usize,
        ),
        block_size_fits(ds + unit),
{
    let s = ds + unit;
    assert(decimal_value(ds) <= decimal_value(ds) * mult) by (nonlinear_arith)
        requires
            mult >= 1,
    ;
    assert forall|i: int| 0 <= i < s.len() implies !is_white_space(#[trigger] s[i]) by {
        if i < ds.len() {
            assert(is_digit(ds[i]));
        } else {
            assert(s[i] == unit[i - ds.len()]);
        }
    }
    lemma_trim_no_white_space(s);
    assert forall|i: int| 0 <= i < ds.len() implies !is_white_space(#[trigger] ds[i]) by {
        assert(is_digit(ds[i]));
    }
    lemma_trim_no_white_space(ds);
    let last = ds[ds.len() - 1];
    assert(is_digit(last));
    assert(s.take(ds.len() as int) =~= ds);
    if unit.len() == 2 {
        assert(s[s.len() - 2] == unit[0] && s[s.len() - 1] == unit[1]);
        assert(s.take(s.len() - 2) =~= ds);
    } else if unit.len() == 1 {
        assert(s[s.len() - 1] == unit[0]);
        assert(s[s.len() - 2] == last || ds.len() == 1);
        assert(s.take(s.len() - 1) =~= ds);
    } else {
        assert(s =~= ds);
        assert(s[s.len() - 1] == last);
        if ds.len() >= 2 {
            assert(is_digit(ds[ds.len() - 2]));
        }
    }
    assert(split_unit(s) == (ds, mult as usize));
    lemma_parse_numeral(ds);
}

/// Only the text "-" (one hyphen) names a standard stream, besides an
/// absent path; any other text, and a path that is not valid Unicode, names
/// a file.
pub proof fn lemma_std_stream_only_dash(p: Option<Option<&str>>)
    ensures
        names_std_stream(p) <==> (p is None || (p matches Some(Some(t)) && t@.len() == 1 && t@[0]
            == '-')),
{
    if let Some(Some(t)) = p {
        if t@.len() == 1 && t@[0] == '-' {
            assert(t@ =~= seq!['-']);
        }
    }
}

} // verus!
