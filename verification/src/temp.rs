//! Reading the sensor's raw value: hwmon discovery decisions (which directory
//! entry is a sensor, which file carries its label, which file carries its
//! reading) and the parse of a reading into integer millidegrees.
//!
//! The file and directory I/O itself happens outside the library; these
//! functions decide over the bytes that were read.

use vstd::prelude::*;
use vstd::string::StrSliceExecFns;

verus! {

/// ASCII whitespace, as `u8::is_ascii_whitespace` defines it.
pub open spec fn is_space(b: u8) -> bool {
    b == 32 || b == 9 || b == 10 || b == 12 || b == 13
}

/// The bytes of `s` up to (not including) its first whitespace byte.
pub open spec fn spec_token_prefix(s: Seq<u8>) -> Seq<u8>
    decreases s.len(),
{
    if s.len() == 0 || is_space(s[0]) {
        Seq::empty()
    } else {
        seq![s[0]] + spec_token_prefix(s.drop_first())
    }
}

/// The first whitespace-separated token of `s`, absent when `s` holds nothing
/// but whitespace.
pub open spec fn spec_first_token(s: Seq<u8>) -> Option<Seq<u8>>
    decreases s.len(),
{
    if s.len() == 0 {
        Option::None
    } else if is_space(s[0]) {
        spec_first_token(s.drop_first())
    } else {
        Option::Some(spec_token_prefix(s))
    }
}

/// The token prefix is exactly the bytes up to the first whitespace.
proof fn lemma_token_prefix_range(s: Seq<u8>, k: int)
    requires
        0 <= k <= s.len(),
        forall|j: int| 0 <= j < k ==> !is_space(s[j]),
        k == s.len() || is_space(s[k]),
    ensures
        spec_token_prefix(s) =~= s.take(k),
    decreases k,
{
    if k > 0 {
        lemma_token_prefix_range(s.drop_first(), k - 1);
        assert(s.take(k) =~= seq![s[0]] + s.drop_first().take(k - 1));
    }
}

fn space(b: u8) -> (r: bool)
    ensures
        r == is_space(b),
{
    b == 32 || b == 9 || b == 10 || b == 12 || b == 13
}

/// Extract the first whitespace-separated token of a raw file content, the
/// way a reading or a label is stripped of its trailing newline.
pub fn first_token(raw: &[u8]) -> (t: Option<Vec<u8>>)
    ensures
        match t {
            Option::Some(v) => spec_first_token(raw@) == Option::Some(v@),
            Option::None => spec_first_token(raw@) is None,
        },
{
    let n = raw.len();
    let mut i: usize = 0;
    proof {
        assert(raw@.skip(0) =~= raw@);
    }
    while i < n && space(raw[i])
        invariant
            n == raw@.len(),
            i <= n,
            spec_first_token(raw@) == spec_first_token(raw@.skip(i as int)),
        decreases n - i,
    {
        proof {
            assert(raw@.skip(i as int).drop_first() =~= raw@.skip(i + 1));
        }
        i = i + 1;
    }
    if i == n {
        proof {
            assert(raw@.skip(n as int) =~= Seq::<u8>::empty());
        }
        return Option::None;
    }
    let start = i;
    while i < n && !space(raw[i])
        invariant
            n == raw@.len(),
            start <= i <= n,
            forall|j: int| start <= j < i ==> !is_space(raw@[j]),
        decreases n - i,
    {
        i = i + 1;
    }
    let end = i;
    let mut v: Vec<u8> = Vec::new();
    let mut j: usize = start;
    while j < end
        invariant
            n == raw@.len(),
            start <= j <= end <= n,
            v@ =~= raw@.subrange(start as int, j as int),
        decreases end - j,
    {
        v.push(raw[j]);
        proof {
            assert(v@ =~= raw@.subrange(start as int, j + 1));
        }
        j = j + 1;
    }
    proof {
        let s = raw@.skip(start as int);
        assert(forall|j: int| 0 <= j < end - start ==> s[j] == raw@[start + j]);
        lemma_token_prefix_range(s, end - start);
        assert(v@ =~= s.take(end - start));
        assert(!is_space(s[0]));
    }
    Option::Some(v)
}

/// Why a raw sensor reading was rejected.
#[derive(Clone, Copy, PartialEq, Eq, Structural, Debug)]
pub enum TempError {
    /// The file content holds nothing but whitespace.
    NoToken,
    /// The first token is not a decimal integer.
    Malformed,
    /// The value does not fit the sample type.
    OutOfRange,
}

/// An ASCII decimal digit.
pub open spec fn is_digit(b: u8) -> bool {
    48 <= b <= 57
}

pub open spec fn all_digits(s: Seq<u8>) -> bool {
    forall|i: int| 0 <= i < s.len() ==> is_digit(s[i])
}

/// Numeric value of a digit string, most significant digit first.
pub open spec fn digits_value(s: Seq<u8>) -> int
    decreases s.len(),
{
    if s.len() == 0 {
        0
    } else {
        digits_value(s.drop_last()) * 10 + (s.last() - 48)
    }
}

/// A decimal integer token: an optional minus sign, then at least one digit.
pub open spec fn valid_decimal(t: Seq<u8>) -> bool {
    if t.len() > 0 && t[0] == 45 {
        t.len() >= 2 && all_digits(t.skip(1))
    } else {
        t.len() >= 1 && all_digits(t)
    }
}

/// Signed value of a decimal integer token.
pub open spec fn decimal_value(t: Seq<u8>) -> int {
    if t.len() > 0 && t[0] == 45 {
        -digits_value(t.skip(1))
    } else {
        digits_value(t)
    }
}

pub open spec fn fits_i64(v: int) -> bool {
    i64::MIN <= v <= i64::MAX
}

proof fn lemma_digits_nonneg(s: Seq<u8>)
    requires
        all_digits(s),
    ensures
        digits_value(s) >= 0,
    decreases s.len(),
{
    if s.len() > 0 {
        lemma_digits_nonneg(s.drop_last());
    }
}

/// Extending a digit string never decreases its value.
proof fn lemma_digits_prefix_le(s: Seq<u8>, k: int)
    requires
        all_digits(s),
        0 <= k <= s.len(),
    ensures
        digits_value(s.take(k)) <= digits_value(s),
    decreases s.len() - k,
{
    if k < s.len() {
        lemma_digits_prefix_le(s, k + 1);
        assert(s.take(k + 1).drop_last() =~= s.take(k));
        lemma_digits_nonneg(s.take(k));
    } else {
        assert(s.take(k) =~= s);
    }
}

/// A leading zero does not change a digit string's value.
proof fn lemma_leading_zero(s: Seq<u8>)
    requires
        s.len() > 0,
        s[0] == 48,
    ensures
        digits_value(s) == digits_value(s.drop_first()),
    decreases s.len(),
{
    if s.len() == 1 {
        assert(s.drop_last() =~= Seq::<u8>::empty());
        assert(s.drop_first() =~= Seq::<u8>::empty());
    } else {
        lemma_leading_zero(s.drop_last());
        assert(s.drop_last().drop_first() =~= s.drop_first().drop_last());
        assert(s.drop_first().last() == s.last());
    }
}

/// Parse a decimal integer token, exactly: `Ok` with the token's value when
/// it is well-formed and fits, the matching error otherwise.
pub fn parse_decimal(t: &[u8]) -> (r: Result<i64, TempError>)
    ensures
        match r {
            Result::Ok(v) => valid_decimal(t@) && fits_i64(decimal_value(t@)) && v == decimal_value(
                t@,
            ),
            Result::Err(TempError::Malformed) => !valid_decimal(t@),
            Result::Err(TempError::OutOfRange) => valid_decimal(t@) && !fits_i64(
                decimal_value(t@),
            ),
            Result::Err(TempError::NoToken) => false,
        },
{
    let n = t.len();
    proof {
        assert(t@.skip(0) =~= t@);
    }
    if n == 0 {
        return Result::Err(TempError::Malformed);
    }
    let neg = t[0] == 45;
    let start: usize = if neg {
        1
    } else {
        0
    };
    if start == n {
        return Result::Err(TempError::Malformed);
    }
    let mut i: usize = start;
    while i < n
        invariant
            n == t@.len(),
            start <= i <= n,
            start < n,
            start <= 1,
            neg == (t@[0] == 45),
            start == (if neg { 1int } else { 0int }),
            forall|j: int| start <= j < i ==> is_digit(t@[j]),
        decreases n - i,
    {
        let b = t[i];
        if b < 48 || b > 57 {
            proof {
                if neg {
                    assert(t@.skip(1)[i - 1] == t@[i as int]);
                    assert(!all_digits(t@.skip(1)));
                } else {
                    assert(t@.skip(0) =~= t@);
                    assert(!all_digits(t@));
                }
            }
            return Result::Err(TempError::Malformed);
        }
        i = i + 1;
    }
    proof {
        assert forall|j: int| 0 <= j < t@.skip(start as int).len() implies is_digit(
            t@.skip(start as int)[j],
        ) by {
            assert(t@.skip(start as int)[j] == t@[start + j]);
        }
        assert(all_digits(t@.skip(start as int)));
        if !neg {
            assert(t@.skip(0) =~= t@);
        }
        assert(valid_decimal(t@));
        assert(decimal_value(t@) == (if neg {
            -digits_value(t@.skip(start as int))
        } else {
            digits_value(t@.skip(start as int))
        }));
    }
    let mut z: usize = start;
    while z < n && t[z] == 48
        invariant
            n == t@.len(),
            start <= z <= n,
            all_digits(t@.skip(start as int)),
            all_digits(t@.skip(z as int)),
            digits_value(t@.skip(start as int)) == digits_value(t@.skip(z as int)),
        decreases n - z,
    {
        proof {
            lemma_leading_zero(t@.skip(z as int));
            assert(t@.skip(z as int).drop_first() =~= t@.skip(z + 1));
            assert forall|j: int| 0 <= j < t@.skip(z + 1).len() implies is_digit(
                #[trigger] t@.skip(z + 1)[j],
            ) by {
                assert(t@.skip(z + 1)[j] == t@.skip(z as int)[j + 1]);
            }
        }
        z = z + 1;
    }
    let mut mag: u64 = 0;
    let mut k: usize = z;
    while k < n
        invariant
            n == t@.len(),
            start <= z <= k <= n,
            start < n,
            start <= 1,
            neg == (t@[0] == 45),
            valid_decimal(t@),
            all_digits(t@.skip(start as int)),
            all_digits(t@.skip(z as int)),
            digits_value(t@.skip(start as int)) == digits_value(t@.skip(z as int)),
            decimal_value(t@) == (if neg {
                -digits_value(t@.skip(start as int))
            } else {
                digits_value(t@.skip(start as int))
            }),
            mag == digits_value(t@.subrange(z as int, k as int)),
        decreases n - k,
    {
        proof {
            assert(t@.skip(z as int)[k - z] == t@[k as int]);
            assert(is_digit(t@[k as int]));
            assert(t@.subrange(z as int, k + 1).drop_last() =~= t@.subrange(z as int, k as int));
            assert(t@.subrange(z as int, k + 1).last() == t@[k as int]);
        }
        let d = (t[k] - 48) as u64;
        let overflowed: bool;
        match mag.checked_mul(10) {
            Option::Some(m10) => {
                match m10.checked_add(d) {
                    Option::Some(m) => {
                        mag = m;
                        overflowed = false;
                    },
                    Option::None => {
                        overflowed = true;
                    },
                }
            },
            Option::None => {
                overflowed = true;
            },
        }
        if overflowed {
            proof {
                assert(digits_value(t@.subrange(z as int, k + 1)) > u64::MAX);
                assert(t@.subrange(z as int, k + 1) =~= t@.skip(z as int).take(k + 1 - z));
                lemma_digits_prefix_le(t@.skip(z as int), k + 1 - z);
                assert(digits_value(t@.skip(z as int)) > u64::MAX);
            }
            return Result::Err(TempError::OutOfRange);
        }
        k = k + 1;
    }
    proof {
        assert(t@.subrange(z as int, n as int) =~= t@.skip(z as int));
        assert(mag == digits_value(t@.skip(start as int)));
    }
    if neg {
        if mag <= 0x7fff_ffff_ffff_ffff {
            Result::Ok(-(mag as i64))
        } else if mag == 0x8000_0000_0000_0000 {
            Result::Ok(i64::MIN)
        } else {
            Result::Err(TempError::OutOfRange)
        }
    } else {
        if mag <= 0x7fff_ffff_ffff_ffff {
            Result::Ok(mag as i64)
        } else {
            Result::Err(TempError::OutOfRange)
        }
    }
}

pub open spec fn spec_starts_with(s: Seq<u8>, p: Seq<u8>) -> bool {
    p.len() <= s.len() && s.take(p.len() as int) == p
}

pub open spec fn spec_ends_with(s: Seq<u8>, p: Seq<u8>) -> bool {
    p.len() <= s.len() && s.skip(s.len() - p.len()) == p
}

/// `hwmon`, the prefix of sensor directory entries.
pub open spec fn spec_hwmon_prefix() -> Seq<u8> {
    seq![104u8, 119u8, 109u8, 111u8, 110u8]
}

/// `_label`, the suffix of files naming a sensor channel.
pub open spec fn spec_label_suffix() -> Seq<u8> {
    seq![95u8, 108u8, 97u8, 98u8, 101u8, 108u8]
}

/// `_input`, the suffix of files carrying a channel's reading.
pub open spec fn spec_input_suffix() -> Seq<u8> {
    seq![95u8, 105u8, 110u8, 112u8, 117u8, 116u8]
}

/// Byte-wise equality of two slices.
pub fn bytes_eq(a: &[u8], b: &[u8]) -> (r: bool)
    ensures
        r == (a@ == b@),
{
    let n = a.len();
    if n != b.len() {
        return false;
    }
    let mut i: usize = 0;
    while i < n
        invariant
            n == a@.len(),
            n == b@.len(),
            i <= n,
            forall|j: int| 0 <= j < i ==> a@[j] == b@[j],
        decreases n - i,
    {
        if a[i] != b[i] {
            return false;
        }
        i = i + 1;
    }
    proof {
        assert(a@ =~= b@);
    }
    true
}

fn starts_with(s: &[u8], p: &[u8]) -> (r: bool)
    ensures
        r == spec_starts_with(s@, p@),
{
    let m = p.len();
    if m > s.len() {
        return false;
    }
    let mut i: usize = 0;
    while i < m
        invariant
            m == p@.len(),
            m <= s@.len(),
            i <= m,
            forall|j: int| 0 <= j < i ==> s@[j] == p@[j],
        decreases m - i,
    {
        if s[i] != p[i] {
            proof {
                assert(s@.take(m as int)[i as int] == s@[i as int]);
            }
            return false;
        }
        i = i + 1;
    }
    proof {
        assert(s@.take(m as int) =~= p@);
    }
    true
}

fn ends_with(s: &[u8], p: &[u8]) -> (r: bool)
    ensures
        r == spec_ends_with(s@, p@),
{
    let m = p.len();
    let n = s.len();
    if m > n {
        return false;
    }
    let off = n - m;
    let mut i: usize = 0;
    while i < m
        invariant
            m == p@.len(),
            n == s@.len(),
            m <= n,
            off == n - m,
            i <= m,
            forall|j: int| 0 <= j < i ==> s@[off + j] == p@[j],
        decreases m - i,
    {
        if s[off + i] != p[i] {
            proof {
                assert(s@.skip(off as int)[i as int] == s@[off + i]);
            }
            return false;
        }
        i = i + 1;
    }
    proof {
        assert(s@.skip(off as int) =~= p@);
    }
    true
}

fn label_suffix() -> (v: Vec<u8>)
    ensures
        v@ == spec_label_suffix(),
{
    let mut v: Vec<u8> = Vec::new();
    v.push(95);
    v.push(108);
    v.push(97);
    v.push(98);
    v.push(101);
    v.push(108);
    proof {
        assert(v@ =~= spec_label_suffix());
    }
    v
}

/// Is this entry of the hwmon class directory a sensor directory (its name
/// starts with `hwmon`)?
pub fn is_hwmon_dir(name: &[u8]) -> (r: bool)
    ensures
        r == spec_starts_with(name@, spec_hwmon_prefix()),
{
    let mut p: Vec<u8> = Vec::new();
    p.push(104);
    p.push(119);
    p.push(109);
    p.push(111);
    p.push(110);
    proof {
        assert(p@ =~= spec_hwmon_prefix());
    }
    starts_with(name, p.as_slice())
}

/// Does this file name carry a channel's label (it ends with `_label`)?
pub fn is_label_file(name: &[u8]) -> (r: bool)
    ensures
        r == spec_ends_with(name@, spec_label_suffix()),
{
    let s = label_suffix();
    ends_with(name, s.as_slice())
}

/// File name of the reading belonging to a label file: the `_label` suffix
/// replaced by `_input`; absent when the name is no label file at all.
pub fn input_name_for(name: &[u8]) -> (r: Option<Vec<u8>>)
    ensures
        match r {
            Option::Some(v) => spec_ends_with(name@, spec_label_suffix()) && v@ == name@.take(
                name@.len() - 6,
            ) + spec_input_suffix(),
            Option::None => !spec_ends_with(name@, spec_label_suffix()),
        },
{
    let s = label_suffix();
    if !ends_with(name, s.as_slice()) {
        return Option::None;
    }
    let stem = name.len() - 6;
    let mut v: Vec<u8> = Vec::new();
    let mut i: usize = 0;
    while i < stem
        invariant
            stem <= name@.len(),
            i <= stem,
            v@ =~= name@.subrange(0, i as int),
        decreases stem - i,
    {
        v.push(name[i]);
        proof {
            assert(v@ =~= name@.subrange(0, i + 1));
        }
        i = i + 1;
    }
    v.push(95);
    v.push(105);
    v.push(110);
    v.push(112);
    v.push(117);
    v.push(116);
    proof {
        assert(v@ =~= name@.take(name@.len() - 6) + spec_input_suffix());
    }
    Option::Some(v)
}

/// Reader of one hwmon channel, identified by its configured label.
pub struct TemperatureParser {
    label: Vec<u8>,
}

impl TemperatureParser {
    /// The label this parser was configured with, as bytes.
    pub closed spec fn spec_label(&self) -> Seq<u8> {
        self.label@
    }

    /// A parser for the sensor channel whose hwmon label is `label`.
    pub fn new(label: &String) -> (p: TemperatureParser)
        ensures
            p.spec_label() == vstd::utf8::encode_utf8(label@),
    {
        TemperatureParser { label: label.as_str().as_bytes_vec() }
    }

    /// Does the content of a `_label` file name this parser's channel? The
    /// comparison takes the file's first whitespace-separated token, the way
    /// the reading itself is stripped.
    pub fn matches_label(&self, content: &[u8]) -> (r: bool)
        ensures
            r == (spec_first_token(content@) == Option::Some(self.spec_label())),
    {
        match first_token(content) {
            Option::Some(tok) => bytes_eq(tok.as_slice(), self.label.as_slice()),
            Option::None => false,
        }
    }

    /// Parse the raw content of a reading file into millidegrees: its first
    /// whitespace-separated token as a decimal integer, exactly.
    pub fn parse(&self, raw: &[u8]) -> (r: Result<i64, TempError>)
        ensures
            match r {
                Result::Ok(v) => (match spec_first_token(raw@) {
                    Option::Some(tok) => valid_decimal(tok) && fits_i64(decimal_value(tok)) && v
                        == decimal_value(tok),
                    Option::None => false,
                }),
                Result::Err(TempError::NoToken) => spec_first_token(raw@) is None,
                Result::Err(TempError::Malformed) => (match spec_first_token(raw@) {
                    Option::Some(tok) => !valid_decimal(tok),
                    Option::None => false,
                }),
                Result::Err(TempError::OutOfRange) => (match spec_first_token(raw@) {
                    Option::Some(tok) => valid_decimal(tok) && !fits_i64(decimal_value(tok)),
                    Option::None => false,
                }),
            },
    {
        match first_token(raw) {
            Option::Some(tok) => parse_decimal(tok.as_slice()),
            Option::None => Result::Err(TempError::NoToken),
        }
    }
}

} // verus!
