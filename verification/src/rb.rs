//! The parts of the Rutherford-Boeing sparse matrix format that the validation
//! harness reads: the fixed-column fields of the header lines and the lists of
//! 1-based column pointers and row indices.
//!
//! Lines are taken as bytes; a byte is white space when it is an ASCII white space
//! character (`' '` or `'\t'..='\r'`), which is what `str::trim` and
//! `str::split_whitespace` remove on ASCII text.
use vstd::prelude::*;

verus! {

/// A class of bytes.
#[derive(Clone, Copy, Debug, PartialEq, Eq, Structural)]
pub enum ByteClass {
    /// The ASCII white space bytes.
    Space,
    /// Every byte but the ASCII white space bytes.
    NotSpace,
    /// The given byte.
    Is(u8),
    /// Every byte but the given one.
    IsNot(u8),
}

/// Whether `c` is an ASCII white space byte.
pub open spec fn is_space(c: u8) -> bool {
    c == 0x20 || (0x09 <= c && c <= 0x0d)
}

/// Whether `c` belongs to class `k`.
pub open spec fn in_class(c: u8, k: ByteClass) -> bool {
    match k {
        ByteClass::Space => is_space(c),
        ByteClass::NotSpace => !is_space(c),
        ByteClass::Is(b) => c == b,
        ByteClass::IsNot(b) => c != b,
    }
}

/// The first position in `i..e` whose byte is not in class `k`, or `e`.
pub open spec fn skip(s: Seq<u8>, i: int, e: int, k: ByteClass) -> int
    decreases e - i,
{
    if i < e && in_class(s[i], k) {
        skip(s, i + 1, e, k)
    } else {
        i
    }
}

/// The end of `s[a..e]` once its trailing bytes of class `k` are dropped.
pub open spec fn back(s: Seq<u8>, a: int, e: int, k: ByteClass) -> int
    decreases e - a,
{
    if a < e && in_class(s[e - 1], k) {
        back(s, a, e - 1, k)
    } else {
        e
    }
}

/// Whether `c` is an ASCII decimal digit.
pub open spec fn is_digit(c: u8) -> bool {
    0x30 <= c && c <= 0x39
}

/// Why a decimal integer could not be read, as `str::parse` reports it.
#[derive(Clone, Copy, Debug, PartialEq, Eq, Structural)]
pub enum NumberError {
    /// The text is empty.
    Empty,
    /// The text holds a byte that is not a digit where a digit is expected.
    InvalidDigit,
    /// The number is above the largest value of the type.
    PosOverflow,
    /// The number is below the smallest value of the type.
    NegOverflow,
}

impl NumberError {
    /// Return the description of the error, worded as `str::parse` words it.
    pub fn message(&self) -> (r: &'static str)
        ensures
            r@ == number_error_text(*self),
    {
        match self {
            NumberError::Empty => "cannot parse integer from empty string",
            NumberError::InvalidDigit => "invalid digit found in string",
            NumberError::PosOverflow => "number too large to fit in target type",
            NumberError::NegOverflow => "number too small to fit in target type",
        }
    }
}

/// The description of a number error.
pub open spec fn number_error_text(e: NumberError) -> Seq<char> {
    match e {
        NumberError::Empty => "cannot parse integer from empty string"@,
        NumberError::InvalidDigit => "invalid digit found in string"@,
        NumberError::PosOverflow => "number too large to fit in target type"@,
        NumberError::NegOverflow => "number too small to fit in target type"@,
    }
}

/// Read the digits `s[i..]` after the value `acc` read so far, away from zero
/// (downwards when `negative`), failing at the first byte that is not a digit or
/// that takes the value out of `min..=max`.
pub open spec fn scan(s: Seq<u8>, i: int, acc: int, negative: bool, min: int, max: int) -> Result<
    int,
    NumberError,
>
    decreases s.len() - i,
{
    if i >= s.len() {
        Ok(acc)
    } else if !is_digit(s[i]) {
        Err(NumberError::InvalidDigit)
    } else if negative {
        let next = acc * 10 - (s[i] - 0x30);
        if next < min {
            Err(NumberError::NegOverflow)
        } else {
            scan(s, i + 1, next, negative, min, max)
        }
    } else {
        let next = acc * 10 + (s[i] - 0x30);
        if next > max {
            Err(NumberError::PosOverflow)
        } else {
            scan(s, i + 1, next, negative, min, max)
        }
    }
}

/// The decimal integer written `s`, with an optional sign (`-` only when `signed`),
/// within `min..=max`: how `str::parse` reads an integer type with these bounds.
pub open spec fn parse_number(s: Seq<u8>, signed: bool, min: int, max: int) -> Result<
    int,
    NumberError,
> {
    if s.len() == 0 {
        Err(NumberError::Empty)
    } else if (s[0] == 0x2b || s[0] == 0x2d) && s.len() == 1 {
        Err(NumberError::InvalidDigit)
    } else if s[0] == 0x2b {
        scan(s, 1, 0, false, min, max)
    } else if s[0] == 0x2d && signed {
        scan(s, 1, 0, true, min, max)
    } else {
        scan(s, 0, 0, false, min, max)
    }
}

/// The position in `s[i..e]` reached by [`skip`].
pub fn skip_exec(s: &[u8], i: usize, e: usize, k: ByteClass) -> (r: usize)
    requires
        i <= e <= s@.len(),
    ensures
        r == skip(s@, i as int, e as int, k),
        i <= r <= e,
{
    let mut j = i;
    while j < e && in_class_exec(s[j], k)
        invariant
            i <= j <= e <= s@.len(),
            skip(s@, j as int, e as int, k) == skip(s@, i as int, e as int, k),
        decreases e - j,
    {
        j = j + 1;
    }
    j
}

/// The end reached by [`back`] on `s[a..e]`.
pub fn back_exec(s: &[u8], a: usize, e: usize, k: ByteClass) -> (r: usize)
    requires
        a <= e <= s@.len(),
    ensures
        r == back(s@, a as int, e as int, k),
        a <= r <= e,
{
    let mut j = e;
    while a < j && in_class_exec(s[j - 1], k)
        invariant
            a <= j <= e <= s@.len(),
            back(s@, a as int, j as int, k) == back(s@, a as int, e as int, k),
        decreases j - a,
    {
        j = j - 1;
    }
    j
}

/// Whether `c` belongs to class `k`.
pub fn in_class_exec(c: u8, k: ByteClass) -> (r: bool)
    ensures
        r == in_class(c, k),
{
    match k {
        ByteClass::Space => c == 0x20 || (0x09 <= c && c <= 0x0d),
        ByteClass::NotSpace => !(c == 0x20 || (0x09 <= c && c <= 0x0d)),
        ByteClass::Is(b) => c == b,
        ByteClass::IsNot(b) => c != b,
    }
}

/// Read the decimal integer written `s[a..b]` as [`parse_number`] does.
pub fn parse_number_exec(s: &[u8], a: usize, b: usize, signed: bool, min: i128, max: i128) -> (r:
    Result<i128, NumberError>)
    requires
        a <= b <= s@.len(),
        -0x1_0000_0000_0000_0000 <= min <= 0 <= max <= 0x1_0000_0000_0000_0000,
    ensures
        r matches Ok(v) ==> min <= v <= max,
        r matches Ok(v) ==> parse_number(s@.subrange(a as int, b as int), signed, min as int, max as int)
            == Ok::<int, NumberError>(v as int),
        r matches Err(e) ==> parse_number(
            s@.subrange(a as int, b as int),
            signed,
            min as int,
            max as int,
        ) == Err::<int, NumberError>(e),
{
    let ghost t = s@.subrange(a as int, b as int);
    if a == b {
        return Err(NumberError::Empty);
    }
    let first = s[a];
    if (first == 0x2b || first == 0x2d) && b - a == 1 {
        return Err(NumberError::InvalidDigit);
    }
    let negative = first == 0x2d && signed;
    let start: usize = if first == 0x2b || negative {
        1
    } else {
        0
    };
    let mut j: usize = start;
    let mut acc: i128 = 0;
    while j < b - a
        invariant
            a <= b <= s@.len(),
            t == s@.subrange(a as int, b as int),
            start <= j <= b - a,
            min <= acc <= max,
            negative ==> acc <= 0,
            !negative ==> 0 <= acc,
            -0x1_0000_0000_0000_0000 <= min <= 0 <= max <= 0x1_0000_0000_0000_0000,
            scan(t, j as int, acc as int, negative, min as int, max as int) == parse_number(
                t,
                signed,
                min as int,
                max as int,
            ),
        decreases b - a - j,
    {
        let c = s[a + j];
        assert(c == t[j as int]);
        if !(0x30 <= c && c <= 0x39) {
            return Err(NumberError::InvalidDigit);
        }
        let d = (c - 0x30) as i128;
        if negative {
            let next = acc * 10 - d;
            if next < min {
                return Err(NumberError::NegOverflow);
            }
            acc = next;
        } else {
            let next = acc * 10 + d;
            if next > max {
                return Err(NumberError::PosOverflow);
            }
            acc = next;
        }
        j = j + 1;
    }
    Ok(acc)
}

/// A field of the header lines.
#[derive(Clone, Copy, Debug, PartialEq, Eq, Structural)]
pub enum Field {
    /// The title, in the first 72 columns of the first line.
    Title,
    /// The key, after column 72 of the first line.
    Key,
    /// The number of lines of column pointers, columns 15 to 28 of the second line.
    Lptr,
    /// The number of lines of row indices, columns 29 to 42 of the second line.
    Lind,
    /// The matrix kind, in the first 3 columns of the third line.
    Kind,
    /// The number of rows, columns 15 to 28 of the third line.
    Nrows,
    /// The number of columns, columns 29 to 42 of the third line.
    Ncols,
    /// The number of entries, columns 43 to 56 of the third line.
    Nnz,
}

/// The name of a field.
pub open spec fn field_name(f: Field) -> Seq<char> {
    match f {
        Field::Title => "title"@,
        Field::Key => "key"@,
        Field::Lptr => "lptr"@,
        Field::Lind => "lind"@,
        Field::Kind => "kind"@,
        Field::Nrows => "nrows"@,
        Field::Ncols => "ncols"@,
        Field::Nnz => "nnz"@,
    }
}

impl Field {
    /// Return the name of the field.
    pub fn name(&self) -> (r: &'static str)
        ensures
            r@ == field_name(*self),
    {
        match self {
            Field::Title => "title",
            Field::Key => "key",
            Field::Lptr => "lptr",
            Field::Lind => "lind",
            Field::Kind => "kind",
            Field::Nrows => "nrows",
            Field::Ncols => "ncols",
            Field::Nnz => "nnz",
        }
    }
}

/// Why a header line could not be read.
#[derive(Clone, Copy, Debug, PartialEq, Eq, Structural)]
pub enum HeaderError {
    /// The line is too short to hold the field.
    Missing(Field),
    /// The field does not hold a number of its type.
    Invalid(Field, NumberError),
}

/// The range of the title in `line`: the first 72 bytes up to the first `;`,
/// without surrounding white space nor trailing `|`; none when the line is shorter.
pub open spec fn title_range(line: Seq<u8>) -> Option<(int, int)> {
    if line.len() < 72 {
        None
    } else {
        let e = skip(line, 0, 72, ByteClass::IsNot(0x3b));
        let a = skip(line, 0, e, ByteClass::Space);
        let c = back(line, a, e, ByteClass::Space);
        let d = back(line, a, c, ByteClass::Is(0x7c));
        let a2 = skip(line, a, d, ByteClass::Space);
        Some((a2, back(line, a2, d, ByteClass::Space)))
    }
}

/// The range of the key in `line`: the bytes after the first 72, without
/// surrounding white space nor leading `|`; none when the line is shorter.
pub open spec fn key_range(line: Seq<u8>) -> Option<(int, int)> {
    if line.len() < 72 {
        None
    } else {
        let a = skip(line, 72, line.len() as int, ByteClass::Space);
        let b = back(line, a, line.len() as int, ByteClass::Space);
        Some((skip(line, a, b, ByteClass::Is(0x7c)), b))
    }
}

/// The number of field `f`, written in `line[start..stop]` with surrounding white
/// space, of the integer type with bounds `min..=max` (signed when `signed`).
pub open spec fn read_field(
    line: Seq<u8>,
    start: int,
    stop: int,
    f: Field,
    signed: bool,
    min: int,
    max: int,
) -> Result<int, HeaderError> {
    if line.len() < stop {
        Err(HeaderError::Missing(f))
    } else {
        let a = skip(line, start, stop, ByteClass::Space);
        let b = back(line, a, stop, ByteClass::Space);
        match parse_number(line.subrange(a, b), signed, min, max) {
            Ok(v) => Ok(v),
            Err(e) => Err(HeaderError::Invalid(f, e)),
        }
    }
}

/// The counts of lines of the second header line: `lptr` then `lind`, as `usize`.
pub open spec fn counts_spec(line: Seq<u8>) -> Result<(int, int), HeaderError> {
    match read_field(line, 14, 28, Field::Lptr, false, 0, usize::MAX as int) {
        Err(e) => Err(e),
        Ok(p) => match read_field(line, 28, 42, Field::Lind, false, 0, usize::MAX as int) {
            Err(e) => Err(e),
            Ok(q) => Ok((p, q)),
        },
    }
}

/// The sizes of the third header line: `nrows`, `ncols` then `nnz`, as `i32`.
pub open spec fn sizes_spec(line: Seq<u8>) -> Result<(int, int, int), HeaderError> {
    match read_field(line, 14, 28, Field::Nrows, true, i32::MIN as int, i32::MAX as int) {
        Err(e) => Err(e),
        Ok(m) => match read_field(line, 28, 42, Field::Ncols, true, i32::MIN as int, i32::MAX as int) {
            Err(e) => Err(e),
            Ok(n) => match read_field(line, 42, 56, Field::Nnz, true, i32::MIN as int, i32::MAX as int) {
                Err(e) => Err(e),
                Ok(z) => Ok((m, n, z)),
            },
        },
    }
}

/// Return the range of the title of the first header line.
pub fn title(line: &[u8]) -> (r: Option<(usize, usize)>)
    ensures
        r matches Some((a, b)) ==> title_range(line@) == Some((a as int, b as int)),
        r is None <==> title_range(line@) is None,
{
    if line.len() < 72 {
        return None;
    }
    let e = skip_exec(line, 0, 72, ByteClass::IsNot(0x3b));
    let a = skip_exec(line, 0, e, ByteClass::Space);
    let c = back_exec(line, a, e, ByteClass::Space);
    let d = back_exec(line, a, c, ByteClass::Is(0x7c));
    let a2 = skip_exec(line, a, d, ByteClass::Space);
    Some((a2, back_exec(line, a2, d, ByteClass::Space)))
}

/// Return the range of the key of the first header line.
pub fn key(line: &[u8]) -> (r: Option<(usize, usize)>)
    ensures
        r matches Some((a, b)) ==> key_range(line@) == Some((a as int, b as int)),
        r is None <==> key_range(line@) is None,
{
    if line.len() < 72 {
        return None;
    }
    let a = skip_exec(line, 72, line.len(), ByteClass::Space);
    let b = back_exec(line, a, line.len(), ByteClass::Space);
    Some((skip_exec(line, a, b, ByteClass::Is(0x7c)), b))
}

/// Return the range of the matrix kind of the third header line: its first 3 bytes.
pub fn kind(line: &[u8]) -> (r: Option<(usize, usize)>)
    ensures
        r == (if line@.len() >= 3 {
            Some((0usize, 3usize))
        } else {
            None
        }),
{
    if line.len() >= 3 {
        Some((0, 3))
    } else {
        None
    }
}

/// Read the number of field `f` in `line[start..stop]`.
fn field_exec(
    line: &[u8],
    start: usize,
    stop: usize,
    f: Field,
    signed: bool,
    min: i128,
    max: i128,
) -> (r: Result<i128, HeaderError>)
    requires
        start <= stop,
        -0x1_0000_0000_0000_0000 <= min <= 0 <= max <= 0x1_0000_0000_0000_0000,
    ensures
        r matches Ok(v) ==> min <= v <= max,
        r matches Ok(v) ==> read_field(line@, start as int, stop as int, f, signed, min as int, max as int)
            == Ok::<int, HeaderError>(v as int),
        r matches Err(e) ==> read_field(
            line@,
            start as int,
            stop as int,
            f,
            signed,
            min as int,
            max as int,
        ) == Err::<int, HeaderError>(e),
{
    if line.len() < stop {
        return Err(HeaderError::Missing(f));
    }
    let a = skip_exec(line, start, stop, ByteClass::Space);
    let b = back_exec(line, a, stop, ByteClass::Space);
    match parse_number_exec(line, a, b, signed, min, max) {
        Ok(v) => Ok(v),
        Err(e) => Err(HeaderError::Invalid(f, e)),
    }
}

/// Read the numbers of lines of column pointers and of row indices from the second
/// header line.
pub fn counts(line: &[u8]) -> (r: Result<(usize, usize), HeaderError>)
    ensures
        r matches Ok((p, q)) ==> counts_spec(line@) == Ok::<(int, int), HeaderError>(
            (p as int, q as int),
        ),
        r matches Err(e) ==> counts_spec(line@) == Err::<(int, int), HeaderError>(e),
{
    let p = field_exec(line, 14, 28, Field::Lptr, false, 0, usize::MAX as i128)?;
    let q = field_exec(line, 28, 42, Field::Lind, false, 0, usize::MAX as i128)?;
    Ok((p as usize, q as usize))
}

/// Read the numbers of rows, columns and entries from the third header line.
pub fn sizes(line: &[u8]) -> (r: Result<(i32, i32, i32), HeaderError>)
    ensures
        r matches Ok((m, n, z)) ==> sizes_spec(line@) == Ok::<(int, int, int), HeaderError>(
            (m as int, n as int, z as int),
        ),
        r matches Err(e) ==> sizes_spec(line@) == Err::<(int, int, int), HeaderError>(e),
{
    let m = field_exec(line, 14, 28, Field::Nrows, true, i32::MIN as i128, i32::MAX as i128)?;
    let n = field_exec(line, 28, 42, Field::Ncols, true, i32::MIN as i128, i32::MAX as i128)?;
    let z = field_exec(line, 42, 56, Field::Nnz, true, i32::MIN as i128, i32::MAX as i128)?;
    Ok((m as i32, n as i32, z as i32))
}

/// `skip` stops within `i..=e` when `i <= e`.
pub proof fn lemma_skip_bounds(s: Seq<u8>, i: int, e: int, k: ByteClass)
    requires
        i <= e,
    ensures
        i <= skip(s, i, e, k) <= e,
    decreases e - i,
{
    if i < e && in_class(s[i], k) {
        lemma_skip_bounds(s, i + 1, e, k);
    }
}

/// The 1-based integers written in `s[i..]`, separated by white space, each made
/// 0-based: the first failure to read one of them as an `i32`, or to subtract one
/// from it, is reported.
pub open spec fn read_list(s: Seq<u8>, i: int) -> Result<Seq<int>, NumberError>
    decreases s.len() - i,
{
    if i < 0 || i >= s.len() {
        Ok(Seq::empty())
    } else if is_space(s[i]) {
        read_list(s, i + 1)
    } else {
        let j = skip(s, i, s.len() as int, ByteClass::NotSpace);
        proof {
            lemma_skip_bounds(s, i + 1, s.len() as int, ByteClass::NotSpace);
        }
        match parse_number(s.subrange(i, j), true, i32::MIN as int, i32::MAX as int) {
            Err(e) => Err(e),
            Ok(v) => if v - 1 < i32::MIN {
                Err(NumberError::NegOverflow)
            } else {
                match read_list(s, j) {
                    Err(e) => Err(e),
                    Ok(rest) => Ok(seq![v - 1] + rest),
                }
            },
        }
    }
}

/// `prefix` followed by the values of `r`, when `r` is a success.
pub open spec fn prepend(prefix: Seq<int>, r: Result<Seq<int>, NumberError>) -> Result<
    Seq<int>,
    NumberError,
> {
    match r {
        Ok(rest) => Ok(prefix + rest),
        Err(e) => Err(e),
    }
}

/// The values of a vector of `i32`, as integers.
pub open spec fn values(v: Seq<i32>) -> Seq<int> {
    v.map_values(|x: i32| x as int)
}

/// Read the 1-based integers of `s` separated by white space, made 0-based, as
/// [`read_list`] does.
pub fn read_indices(s: &[u8]) -> (r: Result<Vec<i32>, NumberError>)
    ensures
        r matches Ok(v) ==> read_list(s@, 0) == Ok::<Seq<int>, NumberError>(values(v@)),
        r matches Err(e) ==> read_list(s@, 0) == Err::<Seq<int>, NumberError>(e),
{
    let n = s.len();
    let mut out: Vec<i32> = Vec::new();
    let mut i: usize = 0;
    while i < n
        invariant
            n == s@.len(),
            i <= n,
            read_list(s@, 0) == prepend(values(out@), read_list(s@, i as int)),
        decreases n - i,
    {
        if in_class_exec(s[i], ByteClass::Space) {
            i = i + 1;
        } else {
            let j = skip_exec(s, i, n, ByteClass::NotSpace);
            proof {
                lemma_skip_bounds(s@, i + 1, n as int, ByteClass::NotSpace);
            }
            let v = match parse_number_exec(s, i, j, true, i32::MIN as i128, i32::MAX as i128) {
                Ok(v) => v,
                Err(e) => return Err(e),
            };
            if v - 1 < i32::MIN as i128 {
                return Err(NumberError::NegOverflow);
            }
            let ghost before = out@;
            out.push((v - 1) as i32);
            proof {
                assert(values(out@) =~= values(before).push(v - 1));
                match read_list(s@, j as int) {
                    Ok(rest) => {
                        assert(values(before) + (seq![v - 1] + rest) =~= values(out@) + rest);
                    },
                    Err(e) => {},
                }
            }
            i = j;
        }
    }
    proof {
        assert(values(out@) + Seq::<int>::empty() =~= values(out@));
    }
    Ok(out)
}

/// Whether the first `n` entries of the reference ordering and of `order` agree.
pub fn agrees(reference: &[i32], order: &[i32], n: usize) -> (r: bool)
    requires
        n <= reference@.len(),
        n <= order@.len(),
    ensures
        r == (forall|k: int| 0 <= k < n ==> reference@[k] == order@[k]),
{
    let mut k: usize = 0;
    while k < n
        invariant
            k <= n <= reference@.len(),
            n <= order@.len(),
            forall|i: int| 0 <= i < k ==> reference@[i] == order@[i],
        decreases n - k,
    {
        if reference[k] != order[k] {
            return false;
        }
        k = k + 1;
    }
    true
}

/// Whether a matrix of the given sizes is within the limits of the harness.
pub fn within_limits(
    nrows: i32,
    ncols: i32,
    nnz: i32,
    max_rows: i32,
    max_cols: i32,
    max_nnz: i32,
) -> (r: bool)
    ensures
        r == (nnz <= max_nnz && nrows <= max_rows && ncols <= max_cols),
{
    !(nnz > max_nnz || nrows > max_rows || ncols > max_cols)
}

} // verus!
