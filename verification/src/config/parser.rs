//! Parser for cfst-* configuration directives.
//!
//! A parser reads a prefix of its input and returns the rest beside the value.

use vstd::prelude::*;
use vstd::string::StrSliceExecFns;

use crate::domain;
use crate::domain::{Domain, DomainView, Name, WildcardName};
use crate::text;
use crate::text::CharClass;
use crate::time::Duration;

verus! {

/// What a parser expected.
#[derive(Clone, Copy, Debug, PartialEq, Eq, Structural)]
pub enum ErrorKind {
    /// A certain character.
    Char,
    /// A number.
    Digit,
    /// A word.
    IsNot,
    /// Spaces or tabs.
    Space,
    /// A certain word.
    Tag,
    /// A word that denotes something.
    Verify,
}

/// Why a parser rejected its input.
#[derive(Clone, Debug, PartialEq, Eq)]
pub enum CfstParseError<'a> {
    /// What was expected is missing at `input`; another form may fit.
    Error { input: &'a str, code: ErrorKind },
    /// The form was recognised and `input` in it is wrong.
    Failure { input: &'a str, code: ErrorKind },
}

/// What a parser gives, in terms of characters.
pub enum Parsed<V> {
    Done { rest: Seq<char>, value: V },
    Error { at: Seq<char>, code: ErrorKind },
    Failure { at: Seq<char>, code: ErrorKind },
}

/// The error in terms of characters.
pub open spec fn rejection<V>(e: CfstParseError) -> Parsed<V> {
    match e {
        CfstParseError::Error { input, code } => Parsed::Error { at: input@, code },
        CfstParseError::Failure { input, code } => Parsed::Failure { at: input@, code },
    }
}

/// The result of a parser in terms of characters.
pub open spec fn outcome<'a, T: View>(r: Result<(&'a str, T), CfstParseError<'a>>) -> Parsed<T::V> {
    match r {
        Ok((rest, value)) => Parsed::Done { rest: rest@, value: value@ },
        Err(e) => rejection(e),
    }
}

/// The number that a sequence of decimal digits denotes.
pub open spec fn decimal(s: Seq<char>) -> nat
    decreases s.len(),
{
    if s.len() == 0 {
        0
    } else {
        (decimal(s.drop_last()) * 10 + (s.last() as int - '0' as int)) as nat
    }
}

/// A decimal number up to `max`.
pub open spec fn number(s: Seq<char>, max: nat) -> Parsed<nat> {
    let n = text::run(s, CharClass::Digit) as int;
    if n == 0 || decimal(s.take(n)) > max {
        Parsed::Error { at: s, code: ErrorKind::Digit }
    } else {
        Parsed::Done { rest: s.skip(n), value: decimal(s.take(n)) }
    }
}

/// More digits never make a number smaller.
proof fn lemma_decimal_grows(s: Seq<char>, i: int, j: int)
    requires
        0 <= i <= j <= s.len(),
        forall|k: int| 0 <= k < j ==> CharClass::Digit.contains(#[trigger] s[k]),
    ensures
        decimal(s.take(i)) <= decimal(s.take(j)),
    decreases j - i,
{
    if i < j {
        lemma_decimal_grows(s, i, j - 1);
        assert(s.take(j).drop_last() =~= s.take(j - 1));
        assert(s.take(j).last() == s[j - 1]);
    }
}

/// The input from its character `from` on.
fn rest_from<'a>(input: &'a str, from: usize, len: usize) -> (r: &'a str)
    requires
        from <= len == input@.len(),
    ensures
        r@ == input@.skip(from as int),
{
    let r = input.substring_char(from, len);
    assert(r@ =~= input@.skip(from as int));
    r
}

/// Reads a decimal number up to `max`.
fn read_number<'a>(input: &'a str, max: u64) -> (r: Result<(&'a str, u64), CfstParseError<'a>>)
    ensures
        match r {
            Ok((rest, value)) => number(input@, max as nat) == (Parsed::Done {
                rest: rest@,
                value: value as nat,
            }),
            Err(e) => number(input@, max as nat) == rejection::<nat>(e),
        },
{
    let chars = text::chars_of(input);
    let len: usize = chars.len();
    let end = text::run_end(&chars, 0, len, CharClass::Digit);
    proof {
        assert(chars@.subrange(0, len as int) =~= input@);
        text::lemma_run(input@, CharClass::Digit);
    }
    if end == 0 {
        return Err(CfstParseError::Error { input, code: ErrorKind::Digit });
    }
    let mut value: u64 = 0;
    let mut i: usize = 0;
    while i < end
        invariant
            i <= end <= len == chars@.len(),
            0 < end == text::run(input@, CharClass::Digit),
            chars@ == input@,
            forall|k: int| 0 <= k < end ==> CharClass::Digit.contains(#[trigger] input@[k]),
            value == decimal(input@.take(i as int)),
            value <= max,
        decreases end - i,
    {
        let digit: u64 = chars[i] as u64 - '0' as u64;
        proof {
            assert(input@.take(i + 1).drop_last() =~= input@.take(i as int));
            assert(input@.take(i + 1).last() == input@[i as int]);
            assert(decimal(input@.take(i + 1)) == value * 10 + digit);
            lemma_decimal_grows(input@, i + 1, end as int);
        }
        if value as u128 * 10 + digit as u128 > max as u128 {
            return Err(CfstParseError::Error { input, code: ErrorKind::Digit });
        }
        value = value * 10 + digit;
        i = i + 1;
    }
    Ok((rest_from(input, end, len), value))
}

/// The seconds in one of the unit that `c` stands for.
pub open spec fn duration_unit(c: char) -> nat {
    if c == 'h' || c == 'H' {
        3600
    } else if c == 'm' || c == 'M' {
        60
    } else {
        1
    }
}

/// `c` stands for a unit of time.
pub open spec fn is_duration_unit(c: char) -> bool {
    c == 'h' || c == 'm' || c == 's' || c == 'H' || c == 'M' || c == 'S'
}

/// A number of seconds, or of the unit that follows the number.
pub open spec fn duration_secs(s: Seq<char>) -> Parsed<nat> {
    match number(s, u64::MAX as nat) {
        Parsed::Done { rest, value } => if rest.len() > 0 && is_duration_unit(rest[0]) {
            Parsed::Done { rest: rest.skip(1), value: value * duration_unit(rest[0]) }
        } else {
            Parsed::Done { rest, value }
        },
        failed => failed,
    }
}

/// Whether the seconds of a duration fit in 64 bits, as `parse_duration` needs;
/// so they do where there is no duration.
pub fn duration_fits(input: &str) -> (r: bool)
    ensures
        r == (duration_secs(input@) matches Parsed::Done { value, .. } ==> value <= u64::MAX),
{
    let (rest, num) = match read_number(input, u64::MAX) {
        Ok(read) => read,
        Err(_) => return true,
    };
    if rest.is_empty() {
        return true;
    }
    let unit = rest.get_char(0);
    if unit == 'h' || unit == 'H' {
        num as u128 * 3600 <= u64::MAX as u128
    } else if unit == 'm' || unit == 'M' {
        num as u128 * 60 <= u64::MAX as u128
    } else {
        true
    }
}

/// Parse a duration like "1h", "30m", "300", "300s"
pub fn parse_duration<'a>(input: &'a str) -> (r: Result<(&'a str, Duration), CfstParseError<'a>>)
    requires
        duration_secs(input@) matches Parsed::Done { value, .. } ==> value <= u64::MAX,
    ensures
        match duration_secs(input@) {
            Parsed::Done { rest, value } => outcome(r) == (Parsed::Done {
                rest,
                value: crate::time::secs_nanos(value as int) as nat,
            }),
            failed => outcome(r) == failed,
        },
{
    let (rest, num) = match read_number(input, u64::MAX) {
        Ok(read) => read,
        Err(e) => return Err(e),
    };
    let len: usize = rest.unicode_len();
    if len == 0 {
        return Ok((rest, Duration::from_secs(num)));
    }
    let unit = rest.get_char(0);
    if unit == 'h' || unit == 'H' {
        Ok((rest_from(rest, 1, len), Duration::from_secs(num * 3600)))
    } else if unit == 'm' || unit == 'M' {
        Ok((rest_from(rest, 1, len), Duration::from_secs(num * 60)))
    } else if unit == 's' || unit == 'S' {
        Ok((rest_from(rest, 1, len), Duration::from_secs(num)))
    } else {
        Ok((rest, Duration::from_secs(num)))
    }
}

/// The bits per second in one of the unit that `c` stands for.
pub open spec fn speed_unit(c: char) -> nat {
    if c == 'G' || c == 'g' {
        1_000_000_000
    } else if c == 'M' || c == 'm' {
        1_000_000
    } else {
        1_000
    }
}

/// `c` stands for a unit of speed.
pub open spec fn is_speed_unit(c: char) -> bool {
    c == 'M' || c == 'm' || c == 'K' || c == 'k' || c == 'G' || c == 'g'
}

/// The bits per second that a number with a unit stands for, which has to fit
/// in 64 bits; a number without a unit stands for none.
pub open spec fn speed_bits(s: Seq<char>) -> nat {
    match number(s, u64::MAX as nat) {
        Parsed::Done { rest, value } => if rest.len() > 0 && is_speed_unit(rest[0]) {
            value * speed_unit(rest[0])
        } else {
            0
        },
        _ => 0,
    }
}

/// A number of bytes per second, or of bits per second in the unit that follows
/// the number: then the bytes in it, rounded down.
pub open spec fn speed(s: Seq<char>) -> Parsed<nat> {
    match number(s, u64::MAX as nat) {
        Parsed::Done { rest, value } => if rest.len() > 0 && is_speed_unit(rest[0]) {
            Parsed::Done { rest: rest.skip(1), value: value * speed_unit(rest[0]) / 8 }
        } else {
            Parsed::Done { rest, value }
        },
        failed => failed,
    }
}

/// Whether the bits per second of a speed fit in 64 bits, as `parse_speed` needs;
/// so they do where there is no speed with a unit.
pub fn speed_fits(input: &str) -> (r: bool)
    ensures
        r == (speed_bits(input@) <= u64::MAX),
{
    let (rest, num) = match read_number(input, u64::MAX) {
        Ok(read) => read,
        Err(_) => return true,
    };
    if rest.is_empty() {
        return true;
    }
    let unit = rest.get_char(0);
    if unit == 'G' || unit == 'g' {
        num as u128 * 1_000_000_000 <= u64::MAX as u128
    } else if unit == 'M' || unit == 'm' {
        num as u128 * 1_000_000 <= u64::MAX as u128
    } else if unit == 'K' || unit == 'k' {
        num as u128 * 1_000 <= u64::MAX as u128
    } else {
        true
    }
}

/// Parse speed like "5M", "10m", "1024k", or raw bytes/sec
pub fn parse_speed<'a>(input: &'a str) -> (r: Result<(&'a str, u64), CfstParseError<'a>>)
    requires
        speed_bits(input@) <= u64::MAX,
    ensures
        match speed(input@) {
            Parsed::Done { rest, value } => outcome(r) == (Parsed::Done {
                rest,
                value: value as u64,
            }) && value <= u64::MAX,
            Parsed::Error { at, code } => outcome(r) == (Parsed::<u64>::Error { at, code }),
            Parsed::Failure { at, code } => outcome(r) == (Parsed::<u64>::Failure { at, code }),
        },
{
    let (rest, num) = match read_number(input, u64::MAX) {
        Ok(read) => read,
        Err(e) => return Err(e),
    };
    let len: usize = rest.unicode_len();
    if len == 0 {
        return Ok((rest, num));
    }
    let unit = rest.get_char(0);
    if unit == 'G' || unit == 'g' {
        Ok((rest_from(rest, 1, len), num * 1_000_000_000 / 8))
    } else if unit == 'M' || unit == 'm' {
        Ok((rest_from(rest, 1, len), num * 1_000_000 / 8))
    } else if unit == 'K' || unit == 'k' {
        Ok((rest_from(rest, 1, len), num * 1_000 / 8))
    } else {
        Ok((rest, num))
    }
}

/// The stages of a test, as a `cfst-mode` directive states them.
#[derive(Clone, Copy, Debug, PartialEq, Eq, Structural)]
pub enum CfstMode {
    /// Connecting.
    Tcp,
    /// Connecting, then HTTP requests.
    TcpHttping,
    /// Connecting, then HTTP requests, then downloading.
    TcpHttpingDownload,
}

impl View for CfstMode {
    type V = CfstMode;

    open spec fn view(&self) -> CfstMode {
        *self
    }
}

/// What follows `tag` at the start of `s`, whatever the case of the letters.
pub open spec fn after_tag(s: Seq<char>, tag: Seq<char>) -> Option<Seq<char>> {
    if text::starts_with_no_case(s, tag) {
        Some(s.skip(tag.len() as int))
    } else {
        None
    }
}

/// What follows `tag` at the start of the input, whatever the case of the letters.
fn strip_tag<'a>(input: &'a str, tag: &str) -> (r: Option<&'a str>)
    ensures
        match r {
            Some(rest) => after_tag(input@, tag@) == Some(rest@),
            None => after_tag(input@, tag@) is None,
        },
{
    let chars = text::chars_of(input);
    let len: usize = chars.len();
    assert(chars@.skip(0) =~= input@);
    if text::has_tag_no_case(&chars, 0, tag) {
        let n: usize = tag.unicode_len();
        Some(rest_from(input, n, len))
    } else {
        None
    }
}

/// The first of the words in this order that the input begins with.
pub open spec fn mode(s: Seq<char>) -> Parsed<CfstMode> {
    if let Some(rest) = after_tag(s, "tcp:443,httping,download"@) {
        Parsed::Done { rest, value: CfstMode::TcpHttpingDownload }
    } else if let Some(rest) = after_tag(s, "download"@) {
        Parsed::Done { rest, value: CfstMode::TcpHttpingDownload }
    } else if let Some(rest) = after_tag(s, "tcp:443,httping"@) {
        Parsed::Done { rest, value: CfstMode::TcpHttping }
    } else if let Some(rest) = after_tag(s, "httping"@) {
        Parsed::Done { rest, value: CfstMode::TcpHttping }
    } else if let Some(rest) = after_tag(s, "tcp:443"@) {
        Parsed::Done { rest, value: CfstMode::Tcp }
    } else if let Some(rest) = after_tag(s, "tcp"@) {
        Parsed::Done { rest, value: CfstMode::Tcp }
    } else {
        Parsed::Error { at: s, code: ErrorKind::Tag }
    }
}

/// Parse cfst-mode value like "tcp:443", "tcp:443,httping", "tcp:443,httping,download"
pub fn parse_cfst_mode<'a>(input: &'a str) -> (r: Result<(&'a str, CfstMode), CfstParseError<'a>>)
    ensures
        outcome(r) == mode(input@),
{
    if let Some(rest) = strip_tag(input, "tcp:443,httping,download") {
        Ok((rest, CfstMode::TcpHttpingDownload))
    } else if let Some(rest) = strip_tag(input, "download") {
        Ok((rest, CfstMode::TcpHttpingDownload))
    } else if let Some(rest) = strip_tag(input, "tcp:443,httping") {
        Ok((rest, CfstMode::TcpHttping))
    } else if let Some(rest) = strip_tag(input, "httping") {
        Ok((rest, CfstMode::TcpHttping))
    } else if let Some(rest) = strip_tag(input, "tcp:443") {
        Ok((rest, CfstMode::Tcp))
    } else if let Some(rest) = strip_tag(input, "tcp") {
        Ok((rest, CfstMode::Tcp))
    } else {
        Err(CfstParseError::Error { input, code: ErrorKind::Tag })
    }
}

impl CfstMode {
    /// Parse cfst-mode value like "tcp:443", "tcp:443,httping", "tcp:443,httping,download"
    pub fn parse<'a>(input: &'a str) -> (r: Result<(&'a str, CfstMode), CfstParseError<'a>>)
        ensures
            outcome(r) == mode(input@),
    {
        parse_cfst_mode(input)
    }
}

/// A name between two slashes.
pub open spec fn slashed_domain(s: Seq<char>) -> Parsed<DomainView> {
    let inner = s.skip(1);
    let n = text::run(inner, CharClass::Label) as int;
    let close = inner.skip(n);
    if s.len() == 0 || s[0] != '/' {
        Parsed::Error { at: s, code: ErrorKind::Char }
    } else if n == 0 {
        Parsed::Error { at: inner, code: ErrorKind::IsNot }
    } else if close.len() == 0 || close[0] != '/' {
        Parsed::Error { at: close, code: ErrorKind::Char }
    } else {
        Parsed::Done {
            rest: close.skip(1),
            value: DomainView::Name(domain::named(inner.take(n))),
        }
    }
}

impl Domain {
    /// Parse a name between two slashes
    pub fn parse<'a>(input: &'a str) -> (r: Result<(&'a str, Domain), CfstParseError<'a>>)
        ensures
            outcome(r) == slashed_domain(input@),
    {
        let chars = text::chars_of(input);
        let len: usize = chars.len();
        if len == 0 || chars[0] != '/' {
            return Err(CfstParseError::Error { input, code: ErrorKind::Char });
        }
        let end = text::run_end(&chars, 1, len, CharClass::Label);
        proof {
            assert(chars@.subrange(1, len as int) =~= input@.skip(1));
            text::lemma_run(input@.skip(1), CharClass::Label);
            assert(input@.skip(1).skip(end - 1) =~= input@.skip(end as int));
        }
        if end == 1 {
            return Err(
                CfstParseError::Error { input: rest_from(input, 1, len), code: ErrorKind::IsNot },
            );
        }
        if end == len || chars[end] != '/' {
            return Err(
                CfstParseError::Error { input: rest_from(input, end, len), code: ErrorKind::Char },
            );
        }
        let inner = input.substring_char(1, end);
        proof {
            assert(inner@ =~= input@.skip(1).take(end - 1));
            assert(input@.skip(end as int).skip(1) =~= input@.skip(end + 1));
        }
        Ok(
            (
                rest_from(input, end + 1, len),
                Domain::Name(WildcardName::Default(Name::new(inner))),
            ),
        )
    }
}

/// The error that `url` gives where a text is no URL.
#[verifier::external_type_specification]
#[verifier::external_body]
pub struct ExUrlParseError(url::ParseError);

/// The serialization of the URL that a text denotes, as `url::Url` reads it;
/// `None` where it reads none.
pub uninterp spec fn url_of(text: Seq<char>) -> Option<Seq<char>>;

/// `url::Url::parse`: the URL read from a text, given by its serialization,
/// depends on the text alone. What texts denote which URL is left to `url_of`.
#[verifier::external_body]
fn parse_url(text: &str) -> (r: Result<String, url::ParseError>)
    ensures
        match r {
            Ok(url) => url_of(text@) == Some(url@),
            Err(_) => url_of(text@) is None,
        },
{
    url::Url::parse(text).map(String::from)
}

/// A `cfst-domain` line.
#[derive(Debug, PartialEq, Eq)]
pub struct CfstDomainRule {
    /// What the line is about.
    pub domain: Domain,
    /// The file that lists the candidate addresses.
    pub ip_file: Option<String>,
    /// What the download test fetches: the serialization of a URL.
    pub url: Option<String>,
    /// How many of the best addresses are kept.
    pub result_count: Option<usize>,
}

/// A `cfst-domain` line in terms of characters.
pub struct RuleView {
    pub domain: DomainView,
    pub ip_file: Option<Seq<char>>,
    pub url: Option<Seq<char>>,
    pub result_count: Option<usize>,
}

/// A string that may be missing in terms of characters.
pub open spec fn opt_chars(s: Option<String>) -> Option<Seq<char>> {
    match s {
        Some(s) => Some(s@),
        None => None,
    }
}

impl View for CfstDomainRule {
    type V = RuleView;

    open spec fn view(&self) -> RuleView {
        RuleView {
            domain: self.domain@,
            ip_file: opt_chars(self.ip_file),
            url: opt_chars(self.url),
            result_count: self.result_count,
        }
    }
}

/// The next thing after the domain of a `cfst-domain` line.
#[derive(Debug, PartialEq, Eq)]
pub enum CfstOption<'a> {
    /// No option.
    End,
    /// `-url` with its argument.
    Url(&'a str),
    /// `-ip-file` with its argument.
    IpFile(&'a str),
    /// `-result-count` with its argument.
    ResultCount(usize),
}

/// The next thing after the domain in terms of characters.
pub enum OptionView {
    End,
    Url(Seq<char>),
    IpFile(Seq<char>),
    ResultCount(usize),
}

impl<'a> View for CfstOption<'a> {
    type V = OptionView;

    open spec fn view(&self) -> OptionView {
        match self {
            CfstOption::End => OptionView::End,
            CfstOption::Url(text) => OptionView::Url(text@),
            CfstOption::IpFile(text) => OptionView::IpFile(text@),
            CfstOption::ResultCount(count) => OptionView::ResultCount(*count),
        }
    }
}

/// One or more spaces and tabs, skipped.
pub open spec fn after_blanks(s: Seq<char>) -> Parsed<()> {
    if text::run(s, CharClass::Blank) == 0 {
        Parsed::Error { at: s, code: ErrorKind::Space }
    } else {
        Parsed::Done { rest: text::trim_start(s, CharClass::Blank), value: () }
    }
}

/// A word, which ends before a space, a tab or a line ending.
pub open spec fn word(s: Seq<char>) -> Parsed<Seq<char>> {
    let n = text::run(s, CharClass::Token) as int;
    if n == 0 {
        Parsed::Error { at: s, code: ErrorKind::IsNot }
    } else {
        Parsed::Done { rest: s.skip(n), value: s.take(n) }
    }
}

/// A word after one or more spaces and tabs.
pub open spec fn argument(s: Seq<char>) -> Parsed<Seq<char>> {
    match after_blanks(s) {
        Parsed::Done { rest, .. } => word(rest),
        Parsed::Error { at, code } => Parsed::Error { at, code },
        Parsed::Failure { at, code } => Parsed::Failure { at, code },
    }
}

/// A number after one or more spaces and tabs.
pub open spec fn count_argument(s: Seq<char>) -> Parsed<nat> {
    match after_blanks(s) {
        Parsed::Done { rest, .. } => number(rest, usize::MAX as nat),
        Parsed::Error { at, code } => Parsed::Error { at, code },
        Parsed::Failure { at, code } => Parsed::Failure { at, code },
    }
}

/// The next option, if any, after spaces and tabs.
pub open spec fn option(s: Seq<char>) -> Parsed<OptionView> {
    let t = text::trim_start(s, CharClass::Blank);
    if let Some(rest) = after_tag(t, "-url"@) {
        match argument(rest) {
            Parsed::Done { rest, value } => Parsed::Done { rest, value: OptionView::Url(value) },
            Parsed::Error { at, code } => Parsed::Error { at, code },
            Parsed::Failure { at, code } => Parsed::Failure { at, code },
        }
    } else if let Some(rest) = after_tag(t, "-ip-file"@) {
        match argument(rest) {
            Parsed::Done { rest, value } => Parsed::Done { rest, value: OptionView::IpFile(value) },
            Parsed::Error { at, code } => Parsed::Error { at, code },
            Parsed::Failure { at, code } => Parsed::Failure { at, code },
        }
    } else if let Some(rest) = after_tag(t, "-result-count"@) {
        match count_argument(rest) {
            Parsed::Done { rest, value } => Parsed::Done {
                rest,
                value: OptionView::ResultCount(value as usize),
            },
            Parsed::Error { at, code } => Parsed::Error { at, code },
            Parsed::Failure { at, code } => Parsed::Failure { at, code },
        }
    } else {
        Parsed::Done { rest: t, value: OptionView::End }
    }
}

/// Skips one or more spaces and tabs.
fn skip_blanks<'a>(input: &'a str) -> (r: Result<&'a str, CfstParseError<'a>>)
    ensures
        match r {
            Ok(rest) => after_blanks(input@) == (Parsed::Done { rest: rest@, value: () }),
            Err(e) => after_blanks(input@) == rejection::<()>(e),
        },
{
    let chars = text::chars_of(input);
    let len: usize = chars.len();
    let end = text::run_end(&chars, 0, len, CharClass::Blank);
    assert(chars@.subrange(0, len as int) =~= input@);
    if end == 0 {
        Err(CfstParseError::Error { input, code: ErrorKind::Space })
    } else {
        Ok(rest_from(input, end, len))
    }
}

/// Reads a word after one or more spaces and tabs.
fn read_argument<'a>(input: &'a str) -> (r: Result<(&'a str, &'a str), CfstParseError<'a>>)
    ensures
        match r {
            Ok((rest, value)) => argument(input@) == (Parsed::Done { rest: rest@, value: value@ }),
            Err(e) => argument(input@) == rejection::<Seq<char>>(e),
        },
{
    let start = match skip_blanks(input) {
        Ok(start) => start,
        Err(e) => return Err(e),
    };
    let chars = text::chars_of(start);
    let len: usize = chars.len();
    let end = text::run_end(&chars, 0, len, CharClass::Token);
    assert(chars@.subrange(0, len as int) =~= start@);
    if end == 0 {
        return Err(CfstParseError::Error { input: start, code: ErrorKind::IsNot });
    }
    let value = start.substring_char(0, end);
    assert(value@ =~= start@.take(end as int));
    Ok((rest_from(start, end, len), value))
}

/// Parse the next option of a cfst-domain line, if any
pub fn parse_option<'a>(input: &'a str) -> (r: Result<(&'a str, CfstOption<'a>), CfstParseError<'a>>)
    ensures
        outcome(r) == option(input@),
{
    let chars = text::chars_of(input);
    let len: usize = chars.len();
    let from = text::run_end(&chars, 0, len, CharClass::Blank);
    assert(chars@.subrange(0, len as int) =~= input@);
    let start = rest_from(input, from, len);
    if let Some(rest) = strip_tag(start, "-url") {
        match read_argument(rest) {
            Ok((rest, value)) => Ok((rest, CfstOption::Url(value))),
            Err(e) => Err(e),
        }
    } else if let Some(rest) = strip_tag(start, "-ip-file") {
        match read_argument(rest) {
            Ok((rest, value)) => Ok((rest, CfstOption::IpFile(value))),
            Err(e) => Err(e),
        }
    } else if let Some(rest) = strip_tag(start, "-result-count") {
        let number_start = match skip_blanks(rest) {
            Ok(number_start) => number_start,
            Err(e) => return Err(e),
        };
        match read_number(number_start, usize::MAX as u64) {
            Ok((rest, value)) => Ok((rest, CfstOption::ResultCount(value as usize))),
            Err(e) => Err(e),
        }
    } else {
        Ok((start, CfstOption::End))
    }
}

/// An option takes characters from its input.
pub proof fn lemma_option_shrinks(s: Seq<char>)
    ensures
        option(s) matches Parsed::Done { rest, value } ==> rest.len() <= s.len() && (value
            != OptionView::End ==> rest.len() < s.len()),
{
    text::lemma_run(s, CharClass::Blank);
    let t = text::trim_start(s, CharClass::Blank);
    reveal_strlit("-url");
    reveal_strlit("-ip-file");
    reveal_strlit("-result-count");
    let u = if let Some(rest) = after_tag(t, "-url"@) {
        rest
    } else if let Some(rest) = after_tag(t, "-ip-file"@) {
        rest
    } else if let Some(rest) = after_tag(t, "-result-count"@) {
        rest
    } else {
        t
    };
    text::lemma_run(u, CharClass::Blank);
    let v = text::trim_start(u, CharClass::Blank);
    text::lemma_run(v, CharClass::Token);
    text::lemma_run(v, CharClass::Digit);
}

/// The options of a line, each of which sets its part of `rule`, up to where
/// there is no further option.
pub open spec fn options(s: Seq<char>, rule: RuleView) -> Parsed<RuleView>
    decreases s.len(),
{
    proof {
        lemma_option_shrinks(s);
    }
    match option(s) {
        Parsed::Done { rest, value } => match value {
            OptionView::End => Parsed::Done { rest, value: rule },
            OptionView::Url(text) => match url_of(text) {
                Some(url) => options(rest, RuleView { url: Some(url), ..rule }),
                None => Parsed::Failure { at: text, code: ErrorKind::Verify },
            },
            OptionView::IpFile(text) => options(rest, RuleView { ip_file: Some(text), ..rule }),
            OptionView::ResultCount(count) => options(
                rest,
                RuleView { result_count: Some(count), ..rule },
            ),
        },
        Parsed::Error { at, code } => Parsed::Error { at, code },
        Parsed::Failure { at, code } => Parsed::Failure { at, code },
    }
}

/// A line about `domain` that sets nothing.
pub open spec fn bare_rule(domain: DomainView) -> RuleView {
    RuleView { domain, ip_file: None, url: None, result_count: None }
}

/// A domain and its options.
pub open spec fn cfst_domain(s: Seq<char>) -> Parsed<RuleView> {
    match slashed_domain(s) {
        Parsed::Done { rest, value } => options(rest, bare_rule(value)),
        Parsed::Error { at, code } => Parsed::Error { at, code },
        Parsed::Failure { at, code } => Parsed::Failure { at, code },
    }
}

impl CfstDomainRule {
    /// Sets the URL of the rule to what the argument `text` was read as; where it
    /// was read as no URL, the line is wrong at `text`.
    pub fn set_url<'a>(&mut self, text: &'a str, url: Option<String>) -> (r: Result<
        (),
        CfstParseError<'a>,
    >)
        ensures
            match url {
                Some(url) => r is Ok && final(self)@ == (RuleView {
                    url: Some(url@),
                    ..old(self)@
                }),
                None => r == Err::<(), CfstParseError<'a>>(
                    CfstParseError::Failure { input: text, code: ErrorKind::Verify },
                ) && *final(self) == *old(self),
            },
    {
        match url {
            Some(url) => {
                self.url = Some(url);
                Ok(())
            },
            None => Err(CfstParseError::Failure { input: text, code: ErrorKind::Verify }),
        }
    }

    /// Parse cfst-domain line: /domain/ [-url <url>] [-ip-file <path>] [-result-count <num>]
    pub fn parse<'a>(input: &'a str) -> (r: Result<(&'a str, CfstDomainRule), CfstParseError<'a>>)
        ensures
            outcome(r) == cfst_domain(input@),
    {
        parse_cfst_domain(input)
    }
}

/// Parse cfst-domain line: /domain/ [-url <url>] [-ip-file <path>] [-result-count <num>]
pub fn parse_cfst_domain<'a>(input: &'a str) -> (r: Result<
    (&'a str, CfstDomainRule),
    CfstParseError<'a>,
>)
    ensures
        outcome(r) == cfst_domain(input@),
{
    let (after_domain, domain) = match Domain::parse(input) {
        Ok(parsed) => parsed,
        Err(e) => return Err(e),
    };
    let mut rule = CfstDomainRule { domain, ip_file: None, url: None, result_count: None };
    let mut remaining: &'a str = after_domain;
    loop
        invariant
            cfst_domain(input@) == options(remaining@, rule@),
        decreases remaining@.len(),
    {
        proof {
            lemma_option_shrinks(remaining@);
        }
        match parse_option(remaining) {
            Err(e) => return Err(e),
            Ok((rest, CfstOption::End)) => return Ok((rest, rule)),
            Ok((rest, CfstOption::Url(text))) => {
                let url = match parse_url(text) {
                    Ok(url) => Some(url),
                    Err(_) => None,
                };
                match rule.set_url(text, url) {
                    Ok(_) => {},
                    Err(e) => return Err(e),
                }
                remaining = rest;
            },
            Ok((rest, CfstOption::IpFile(text))) => {
                rule.ip_file = Some(text.to_owned());
                remaining = rest;
            },
            Ok((rest, CfstOption::ResultCount(count))) => {
                rule.result_count = Some(count);
                remaining = rest;
            },
        }
    }
}

/// What a parser leaves is an end of its input.
pub open spec fn leaves_an_end<V>(s: Seq<char>, parsed: Parsed<V>) -> bool {
    parsed matches Parsed::Done { rest, .. } ==> domain::ends_with(s, rest)
}

proof fn lemma_skip_is_end(s: Seq<char>, n: int)
    requires
        0 <= n <= s.len(),
    ensures
        domain::ends_with(s, s.skip(n)),
{
    assert(s.skip(s.len() - (s.len() - n)) =~= s.skip(n));
}

proof fn lemma_end_of_end(s: Seq<char>, t: Seq<char>, u: Seq<char>)
    requires
        domain::ends_with(s, t),
        domain::ends_with(t, u),
    ensures
        domain::ends_with(s, u),
{
    assert(s.skip(s.len() - u.len()) =~= t.skip(t.len() - u.len()));
}

proof fn lemma_number_end(s: Seq<char>, max: nat)
    ensures
        leaves_an_end(s, number(s, max)),
{
    text::lemma_run(s, CharClass::Digit);
    lemma_skip_is_end(s, text::run(s, CharClass::Digit) as int);
}

proof fn lemma_trim_start_end(s: Seq<char>, class: CharClass)
    ensures
        domain::ends_with(s, text::trim_start(s, class)),
{
    text::lemma_run(s, class);
    lemma_skip_is_end(s, text::run(s, class) as int);
}

proof fn lemma_after_tag_end(s: Seq<char>, tag: Seq<char>)
    ensures
        after_tag(s, tag) matches Some(rest) ==> domain::ends_with(s, rest),
{
    if text::starts_with_no_case(s, tag) {
        lemma_skip_is_end(s, tag.len() as int);
    }
}

/// Durations, speeds and modes are read from the start of the input; what is left
/// is an end of it.
pub proof fn law_values_leave_an_end(s: Seq<char>)
    ensures
        leaves_an_end(s, duration_secs(s)),
        leaves_an_end(s, speed(s)),
        leaves_an_end(s, mode(s)),
{
    lemma_number_end(s, u64::MAX as nat);
    if let Parsed::Done { rest, .. } = number(s, u64::MAX as nat) {
        if rest.len() > 0 {
            lemma_skip_is_end(rest, 1);
            lemma_end_of_end(s, rest, rest.skip(1));
        }
    }
    lemma_after_tag_end(s, "tcp:443,httping,download"@);
    lemma_after_tag_end(s, "download"@);
    lemma_after_tag_end(s, "tcp:443,httping"@);
    lemma_after_tag_end(s, "httping"@);
    lemma_after_tag_end(s, "tcp:443"@);
    lemma_after_tag_end(s, "tcp"@);
}

proof fn lemma_option_end(s: Seq<char>)
    ensures
        leaves_an_end(s, option(s)),
{
    lemma_trim_start_end(s, CharClass::Blank);
    let t = text::trim_start(s, CharClass::Blank);
    lemma_after_tag_end(t, "-url"@);
    lemma_after_tag_end(t, "-ip-file"@);
    lemma_after_tag_end(t, "-result-count"@);
    let u = if let Some(rest) = after_tag(t, "-url"@) {
        rest
    } else if let Some(rest) = after_tag(t, "-ip-file"@) {
        rest
    } else if let Some(rest) = after_tag(t, "-result-count"@) {
        rest
    } else {
        t
    };
    assert(domain::ends_with(t, u)) by {
        assert(t.skip(0) =~= t);
    }
    lemma_end_of_end(s, t, u);
    lemma_trim_start_end(u, CharClass::Blank);
    let v = text::trim_start(u, CharClass::Blank);
    lemma_end_of_end(s, u, v);
    text::lemma_run(v, CharClass::Token);
    lemma_skip_is_end(v, text::run(v, CharClass::Token) as int);
    lemma_end_of_end(s, v, v.skip(text::run(v, CharClass::Token) as int));
    lemma_number_end(v, usize::MAX as nat);
    if let Parsed::Done { rest, .. } = number(v, usize::MAX as nat) {
        lemma_end_of_end(s, v, rest);
    }
}

proof fn lemma_options_end(s: Seq<char>, rule: RuleView)
    ensures
        leaves_an_end(s, options(s, rule)),
    decreases s.len(),
{
    lemma_option_shrinks(s);
    lemma_option_end(s);
    if let Parsed::Done { rest, value } = option(s) {
        match value {
            OptionView::End => {},
            OptionView::Url(text) => {
                if let Some(url) = url_of(text) {
                    let next = RuleView { url: Some(url), ..rule };
                    lemma_options_end(rest, next);
                    if let Parsed::Done { rest: left, .. } = options(rest, next) {
                        lemma_end_of_end(s, rest, left);
                    }
                }
            },
            OptionView::IpFile(text) => {
                let next = RuleView { ip_file: Some(text), ..rule };
                lemma_options_end(rest, next);
                if let Parsed::Done { rest: left, .. } = options(rest, next) {
                    lemma_end_of_end(s, rest, left);
                }
            },
            OptionView::ResultCount(count) => {
                let next = RuleView { result_count: Some(count), ..rule };
                lemma_options_end(rest, next);
                if let Parsed::Done { rest: left, .. } = options(rest, next) {
                    lemma_end_of_end(s, rest, left);
                }
            },
        }
    }
}

/// A `cfst-domain` line is read from the start of the input; what is left is an
/// end of it.
pub proof fn law_lines_leave_an_end(s: Seq<char>)
    ensures
        leaves_an_end(s, cfst_domain(s)),
{
    if let Parsed::Done { rest, value } = slashed_domain(s) {
        let inner = s.skip(1);
        text::lemma_run(inner, CharClass::Label);
        let n = text::run(inner, CharClass::Label) as int;
        assert(inner.skip(n).skip(1) =~= s.skip(n + 2));
        lemma_skip_is_end(s, n + 2);
        lemma_options_end(rest, bare_rule(value));
        if let Parsed::Done { rest: left, .. } = options(rest, bare_rule(value)) {
            lemma_end_of_end(s, rest, left);
        }
    }
}

/// The mode does not depend on the case of ASCII letters.
pub proof fn law_mode_ignores_case(s: Seq<char>, t: Seq<char>)
    requires
        text::lowered(s) == text::lowered(t),
    ensures
        match (mode(s), mode(t)) {
            (Parsed::Done { rest: a, value: v }, Parsed::Done { rest: b, value: w }) => v == w
                && text::lowered(a) == text::lowered(b),
            (Parsed::Error { code: c, .. }, Parsed::Error { code: d, .. }) => c == d,
            _ => false,
        },
{
    lemma_after_tag_ignores_case(s, t, "tcp:443,httping,download"@);
    lemma_after_tag_ignores_case(s, t, "download"@);
    lemma_after_tag_ignores_case(s, t, "tcp:443,httping"@);
    lemma_after_tag_ignores_case(s, t, "httping"@);
    lemma_after_tag_ignores_case(s, t, "tcp:443"@);
    lemma_after_tag_ignores_case(s, t, "tcp"@);
}

proof fn lemma_after_tag_ignores_case(s: Seq<char>, t: Seq<char>, tag: Seq<char>)
    requires
        text::lowered(s) == text::lowered(t),
    ensures
        match (after_tag(s, tag), after_tag(t, tag)) {
            (Some(a), Some(b)) => text::lowered(a) == text::lowered(b),
            (None, None) => true,
            _ => false,
        },
{
    let n = tag.len() as int;
    assert(s.len() == text::lowered(s).len() == text::lowered(t).len() == t.len());
    if n <= s.len() {
        assert(text::lowered(s.take(n)) =~= text::lowered(s).take(n));
        assert(text::lowered(t.take(n)) =~= text::lowered(t).take(n));
        assert(text::lowered(s.skip(n)) =~= text::lowered(s).skip(n));
        assert(text::lowered(t.skip(n)) =~= text::lowered(t).skip(n));
    }
}

/// The mode that a word stands for.
pub open spec fn mode_of_word(word: Seq<char>) -> Option<CfstMode> {
    if word == "tcp"@ || word == "tcp:443"@ {
        Some(CfstMode::Tcp)
    } else if word == "httping"@ || word == "tcp:443,httping"@ {
        Some(CfstMode::TcpHttping)
    } else if word == "download"@ || word == "tcp:443,httping,download"@ {
        Some(CfstMode::TcpHttpingDownload)
    } else {
        None
    }
}

/// Of the words that stand for a mode, `word` is the longest with which `s` begins,
/// whatever the case of the letters.
pub open spec fn is_longest_word(s: Seq<char>, word: Seq<char>) -> bool {
    &&& mode_of_word(word) is Some
    &&& text::starts_with_no_case(s, word)
    &&& forall|other: Seq<char>|
        #![trigger mode_of_word(other)]
        mode_of_word(other) is Some && text::starts_with_no_case(s, other) ==> other.len()
            <= word.len()
}

/// The mode is that of the longest word with which the input begins; where it begins
/// with no such word, there is no mode.
pub proof fn law_longest_word_is_the_mode(s: Seq<char>)
    ensures
        forall|word: Seq<char>| #[trigger]
            is_longest_word(s, word) ==> mode(s) == (Parsed::Done {
                rest: s.skip(word.len() as int),
                value: mode_of_word(word)->0,
            }),
        mode(s) is Done <==> exists|word: Seq<char>| #[trigger] is_longest_word(s, word),
        mode(s) is Error <==> forall|word: Seq<char>| #[trigger]
            mode_of_word(word) is Some ==> !text::starts_with_no_case(s, word),
{
    let all = "tcp:443,httping,download"@;
    let download = "download"@;
    let both = "tcp:443,httping"@;
    let httping = "httping"@;
    let port = "tcp:443"@;
    let tcp = "tcp"@;
    reveal_strlit("tcp:443,httping,download");
    reveal_strlit("download");
    reveal_strlit("tcp:443,httping");
    reveal_strlit("httping");
    reveal_strlit("tcp:443");
    reveal_strlit("tcp");
    lemma_first_letter(s, all);
    lemma_first_letter(s, download);
    lemma_first_letter(s, both);
    lemma_first_letter(s, httping);
    lemma_first_letter(s, port);
    lemma_first_letter(s, tcp);
    let found = if text::starts_with_no_case(s, all) {
        all
    } else if text::starts_with_no_case(s, download) {
        download
    } else if text::starts_with_no_case(s, both) {
        both
    } else if text::starts_with_no_case(s, httping) {
        httping
    } else if text::starts_with_no_case(s, port) {
        port
    } else {
        tcp
    };
    assert(mode_of_word(found) is Some);
    if mode(s) is Done {
        assert(is_longest_word(s, found));
        assert forall|word: Seq<char>| #[trigger] is_longest_word(s, word) implies word == found by {
            assert(mode_of_word(word) is Some);
        }
    } else {
        assert(mode_of_word(all) is Some);
        assert(mode_of_word(download) is Some);
        assert(mode_of_word(both) is Some);
        assert(mode_of_word(httping) is Some);
        assert(mode_of_word(port) is Some);
        assert(mode_of_word(tcp) is Some);
    }
}

proof fn lemma_first_letter(s: Seq<char>, tag: Seq<char>)
    requires
        tag.len() > 0,
    ensures
        text::starts_with_no_case(s, tag) ==> text::lower(s[0]) == text::lower(tag[0]),
{
    if text::starts_with_no_case(s, tag) {
        let head = s.take(tag.len() as int);
        assert(text::lowered(head)[0] == text::lower(head[0]));
        assert(text::lowered(tag)[0] == text::lower(tag[0]));
    }
}

/// A number counts seconds where no unit follows it, and 3600 or 60 times as many
/// where it counts hours or minutes.
pub proof fn law_duration_units(digits: Seq<char>)
    requires
        digits.len() > 0,
        forall|i: int| 0 <= i < digits.len() ==> CharClass::Digit.contains(#[trigger] digits[i]),
        decimal(digits) <= u64::MAX,
    ensures
        ({
            let n = decimal(digits);
            let none = Seq::<char>::empty();
            &&& duration_secs(digits) == (Parsed::Done { rest: none, value: n })
            &&& duration_secs(digits.push('s')) == (Parsed::Done { rest: none, value: n })
            &&& duration_secs(digits.push('m')) == (Parsed::Done { rest: none, value: 60 * n })
            &&& duration_secs(digits.push('h')) == (Parsed::Done { rest: none, value: 3600 * n })
        }),
{
    let none = Seq::<char>::empty();
    text::lemma_run_is(digits, CharClass::Digit, digits.len() as int);
    assert(digits.take(digits.len() as int) =~= digits);
    assert(digits.skip(digits.len() as int) =~= none);
    lemma_number_then(digits, 's');
    lemma_number_then(digits, 'm');
    lemma_number_then(digits, 'h');
    assert(seq!['s'].skip(1) =~= none);
    assert(seq!['m'].skip(1) =~= none);
    assert(seq!['h'].skip(1) =~= none);
}

/// A number with a unit counts bits, of which eight make a byte; a number without
/// one counts bytes.
pub proof fn law_speed_units(digits: Seq<char>)
    requires
        digits.len() > 0,
        forall|i: int| 0 <= i < digits.len() ==> CharClass::Digit.contains(#[trigger] digits[i]),
        decimal(digits) <= u64::MAX,
    ensures
        ({
            let n = decimal(digits);
            let none = Seq::<char>::empty();
            &&& speed(digits) == (Parsed::Done { rest: none, value: n })
            &&& speed(digits.push('K')) == (Parsed::Done { rest: none, value: n * 1_000 / 8 })
            &&& speed(digits.push('M')) == (Parsed::Done { rest: none, value: n * 1_000_000 / 8 })
            &&& speed(digits.push('G')) == (Parsed::Done {
                rest: none,
                value: n * 1_000_000_000 / 8,
            })
        }),
{
    let none = Seq::<char>::empty();
    text::lemma_run_is(digits, CharClass::Digit, digits.len() as int);
    assert(digits.take(digits.len() as int) =~= digits);
    assert(digits.skip(digits.len() as int) =~= none);
    lemma_number_then(digits, 'K');
    lemma_number_then(digits, 'M');
    lemma_number_then(digits, 'G');
    assert(seq!['K'].skip(1) =~= none);
    assert(seq!['M'].skip(1) =~= none);
    assert(seq!['G'].skip(1) =~= none);
}

proof fn lemma_number_then(digits: Seq<char>, c: char)
    requires
        digits.len() > 0,
        forall|i: int| 0 <= i < digits.len() ==> CharClass::Digit.contains(#[trigger] digits[i]),
        decimal(digits) <= u64::MAX,
        !CharClass::Digit.contains(c),
    ensures
        number(digits.push(c), u64::MAX as nat) == (Parsed::Done {
            rest: seq![c],
            value: decimal(digits),
        }),
{
    let s = digits.push(c);
    let n = digits.len() as int;
    assert forall|i: int| 0 <= i < n implies CharClass::Digit.contains(#[trigger] s[i]) by {
        assert(s[i] == digits[i]);
    }
    text::lemma_run_is(s, CharClass::Digit, n);
    assert(s.take(n) =~= digits);
    assert(s.skip(n) =~= seq![c]);
}

/// An option sets its own part of the rule and no other: where two rules have the
/// same options read into them, the options end in the same way, what an option set
/// is the same in both, and what none set is as it was; the domain stays.
pub proof fn law_options_set_their_part(s: Seq<char>, a: RuleView, b: RuleView)
    ensures
        match (options(s, a), options(s, b)) {
            (Parsed::Done { rest: r, value: v }, Parsed::Done { rest: q, value: w }) => {
                &&& r == q
                &&& v.domain == a.domain && w.domain == b.domain
                &&& v.url == w.url || (v.url == a.url && w.url == b.url)
                &&& v.ip_file == w.ip_file || (v.ip_file == a.ip_file && w.ip_file == b.ip_file)
                &&& v.result_count == w.result_count || (v.result_count == a.result_count
                    && w.result_count == b.result_count)
            },
            (Parsed::Error { at: p, code: c }, Parsed::Error { at: q, code: d }) => p == q && c
                == d,
            (Parsed::Failure { at: p, code: c }, Parsed::Failure { at: q, code: d }) => p == q && c
                == d,
            _ => false,
        },
    decreases s.len(),
{
    lemma_option_shrinks(s);
    if let Parsed::Done { rest, value } = option(s) {
        match value {
            OptionView::End => {},
            OptionView::Url(text) => {
                if let Some(url) = url_of(text) {
                    law_options_set_their_part(
                        rest,
                        RuleView { url: Some(url), ..a },
                        RuleView { url: Some(url), ..b },
                    );
                }
            },
            OptionView::IpFile(text) => {
                law_options_set_their_part(
                    rest,
                    RuleView { ip_file: Some(text), ..a },
                    RuleView { ip_file: Some(text), ..b },
                );
            },
            OptionView::ResultCount(count) => {
                law_options_set_their_part(
                    rest,
                    RuleView { result_count: Some(count), ..a },
                    RuleView { result_count: Some(count), ..b },
                );
            },
        }
    }
}

/// Every character of the gap is a space or a tab.
pub open spec fn is_gap(gap: Seq<char>) -> bool {
    forall|i: int| 0 <= i < gap.len() ==> #[trigger] gap[i] == ' ' || gap[i] == '\t'
}

/// A word: at least one character, none of them a space, a tab or a line ending.
pub open spec fn is_word(word: Seq<char>) -> bool {
    &&& word.len() > 0
    &&& forall|i: int|
        0 <= i < word.len() ==> #[trigger] word[i] != ' ' && word[i] != '\t' && word[i] != '\r'
            && word[i] != '\n'
}

/// The text does not go on a word that stands before it.
pub open spec fn ends_word(tail: Seq<char>) -> bool {
    tail.len() > 0 ==> tail[0] == ' ' || tail[0] == '\t' || tail[0] == '\r' || tail[0] == '\n'
}

/// Decimal digits, at least one.
pub open spec fn is_digits(digits: Seq<char>) -> bool {
    &&& digits.len() > 0
    &&& forall|i: int| 0 <= i < digits.len() ==> '0' <= #[trigger] digits[i] <= '9'
}

/// The text does not go on a number that stands before it.
pub open spec fn ends_number(tail: Seq<char>) -> bool {
    tail.len() > 0 ==> !('0' <= tail[0] <= '9')
}

/// The letters of the tag in either case.
proof fn lemma_tag_letter(s: Seq<char>, tag: Seq<char>, k: int)
    requires
        text::starts_with_no_case(s, tag),
        0 <= k < tag.len(),
    ensures
        text::lower(s[k]) == text::lower(tag[k]),
{
    let head = s.take(tag.len() as int);
    assert(text::lowered(head)[k] == text::lower(head[k]));
    assert(text::lowered(tag)[k] == text::lower(tag[k]));
}

/// An option begins with its tag, after spaces and tabs, and what follows the tag is its
/// argument.
proof fn lemma_option_tag(gap: Seq<char>, tag: Seq<char>, rest: Seq<char>, word: Seq<char>)
    requires
        is_gap(gap),
        word == "-url"@ || word == "-ip-file"@ || word == "-result-count"@,
        text::lowered(tag) == word,
    ensures
        ({
            let t = text::trim_start((gap + tag) + rest, CharClass::Blank);
            &&& t == tag + rest
            &&& after_tag(t, word) == Some(rest)
            &&& word == "-ip-file"@ ==> after_tag(t, "-url"@) is None
            &&& word == "-result-count"@ ==> after_tag(t, "-url"@) is None && after_tag(
                t,
                "-ip-file"@,
            ) is None
        }),
{
    reveal_strlit("-url");
    reveal_strlit("-ip-file");
    reveal_strlit("-result-count");
    let t = tag + rest;
    assert(tag.len() == text::lowered(tag).len());
    assert(text::lowered(word) =~= word);
    assert(text::lowered(tag)[0] == text::lower(tag[0]));
    assert(text::lowered(tag)[1] == text::lower(tag[1]));
    assert(t[0] == tag[0]);
    assert(t[1] == tag[1]);
    assert((gap + tag) + rest =~= gap + t);
    text::lemma_run_then(gap, t, CharClass::Blank);
    assert(t.take(word.len() as int) =~= tag);
    assert(t.skip(word.len() as int) =~= rest);
    if text::starts_with_no_case(t, "-url"@) {
        lemma_tag_letter(t, "-url"@, 1);
    }
    if text::starts_with_no_case(t, "-ip-file"@) {
        lemma_tag_letter(t, "-ip-file"@, 1);
    }
}

/// A word is read as it is written, after spaces and tabs.
proof fn lemma_argument(gap: Seq<char>, arg: Seq<char>, tail: Seq<char>)
    requires
        is_gap(gap),
        gap.len() > 0,
        is_word(arg),
        ends_word(tail),
    ensures
        argument(gap + (arg + tail)) == (Parsed::Done { rest: tail, value: arg }),
{
    let rest = arg + tail;
    assert(rest[0] == arg[0]);
    text::lemma_run_then(gap, rest, CharClass::Blank);
    text::lemma_run_then(arg, tail, CharClass::Token);
}

/// A number is what its digits denote, up to the bound; beyond it, and where there is no
/// digit, there is none.
pub proof fn law_numbers_are_read_whole(digits: Seq<char>, tail: Seq<char>, max: nat)
    requires
        is_digits(digits),
        ends_number(tail),
    ensures
        number(digits + tail, max) == if decimal(digits) <= max {
            Parsed::Done { rest: tail, value: decimal(digits) }
        } else {
            Parsed::Error { at: digits + tail, code: ErrorKind::Digit }
        },
        number(tail, max) == (Parsed::<nat>::Error { at: tail, code: ErrorKind::Digit }),
{
    text::lemma_run_then(digits, tail, CharClass::Digit);
    text::lemma_run_then(seq![], tail, CharClass::Digit);
    assert(Seq::<char>::empty() + tail =~= tail);
}

/// A digit denotes its place after '0', and digits put after others shift these by as many
/// powers of ten.
pub proof fn law_digits_have_places(a: Seq<char>, b: Seq<char>, c: char)
    requires
        is_digits(a),
        is_digits(b),
        '0' <= c <= '9',
    ensures
        decimal(seq![c]) == c as int - '0' as int,
        decimal(a + b) == decimal(a) * vstd::arithmetic::power::pow(10, b.len()) + decimal(b),
    decreases b.len(),
{
    assert(seq![c].drop_last() =~= seq![]);
    assert(seq![c].last() == c);
    assert(decimal(seq![]) == 0);
    let t = b.drop_last();
    let d = b.last() as int - '0' as int;
    assert((a + b).drop_last() =~= a + t);
    assert((a + b).last() == b.last());
    assert('0' <= b[b.len() - 1] <= '9');
    vstd::arithmetic::power::lemma_pow0(10);
    vstd::arithmetic::power::lemma_pow1(10);
    if t.len() > 0 {
        assert forall|i: int| 0 <= i < t.len() implies '0' <= #[trigger] t[i] <= '9' by {
            assert(t[i] == b[i]);
        }
        law_digits_have_places(a, t, c);
        let p = vstd::arithmetic::power::pow(10, t.len());
        vstd::arithmetic::power::lemma_pow_adds(10, t.len(), 1);
        assert(vstd::arithmetic::power::pow(10, b.len()) == p * 10);
        let x = decimal(a) as int;
        let y = decimal(t) as int;
        assert((x * p + y) * 10 + d == x * (p * 10) + (y * 10 + d)) by (nonlinear_arith);
    } else {
        assert(t =~= seq![]);
        assert(a + t =~= a);
        assert(decimal(b) == d);
    }
}

/// The option for the file sets the file to its argument as it is written, and nothing
/// else; the options after it are read next. The tag may be in either case.
pub proof fn law_ip_file_is_kept_as_written(
    gap: Seq<char>,
    tag: Seq<char>,
    space: Seq<char>,
    path: Seq<char>,
    tail: Seq<char>,
    rule: RuleView,
)
    requires
        is_gap(gap),
        text::lowered(tag) == "-ip-file"@,
        is_gap(space),
        space.len() > 0,
        is_word(path),
        ends_word(tail),
    ensures
        options((gap + tag) + (space + (path + tail)), rule) == options(
            tail,
            RuleView {
                domain: rule.domain,
                ip_file: Some(path),
                url: rule.url,
                result_count: rule.result_count,
            },
        ),
{
    lemma_option_tag(gap, tag, space + (path + tail), "-ip-file"@);
    lemma_argument(space, path, tail);
    lemma_option_shrinks((gap + tag) + (space + (path + tail)));
}

/// The option for the URL sets the URL to what its argument denotes, and nothing else; an
/// argument that denotes none makes the line wrong at the argument.
pub proof fn law_url_is_what_the_argument_denotes(
    gap: Seq<char>,
    tag: Seq<char>,
    space: Seq<char>,
    arg: Seq<char>,
    tail: Seq<char>,
    rule: RuleView,
)
    requires
        is_gap(gap),
        text::lowered(tag) == "-url"@,
        is_gap(space),
        space.len() > 0,
        is_word(arg),
        ends_word(tail),
    ensures
        options((gap + tag) + (space + (arg + tail)), rule) == match url_of(arg) {
            Some(url) => options(
                tail,
                RuleView {
                    domain: rule.domain,
                    ip_file: rule.ip_file,
                    url: Some(url),
                    result_count: rule.result_count,
                },
            ),
            None => Parsed::Failure { at: arg, code: ErrorKind::Verify },
        },
{
    lemma_option_tag(gap, tag, space + (arg + tail), "-url"@);
    lemma_argument(space, arg, tail);
    lemma_option_shrinks((gap + tag) + (space + (arg + tail)));
}

/// The option for the count sets the count to the number that its argument denotes, and
/// nothing else; a number that is too large is an error at the number.
pub proof fn law_result_count_is_the_number(
    gap: Seq<char>,
    tag: Seq<char>,
    space: Seq<char>,
    digits: Seq<char>,
    tail: Seq<char>,
    rule: RuleView,
)
    requires
        is_gap(gap),
        text::lowered(tag) == "-result-count"@,
        is_gap(space),
        space.len() > 0,
        is_digits(digits),
        ends_number(tail),
    ensures
        options((gap + tag) + (space + (digits + tail)), rule) == if decimal(digits)
            <= usize::MAX {
            options(
                tail,
                RuleView {
                    domain: rule.domain,
                    ip_file: rule.ip_file,
                    url: rule.url,
                    result_count: Some(decimal(digits) as usize),
                },
            )
        } else {
            Parsed::Error { at: digits + tail, code: ErrorKind::Digit }
        },
{
    let rest = digits + tail;
    lemma_option_tag(gap, tag, space + rest, "-result-count"@);
    assert(rest[0] == digits[0]);
    text::lemma_run_then(space, rest, CharClass::Blank);
    law_numbers_are_read_whole(digits, tail, usize::MAX as nat);
    lemma_option_shrinks((gap + tag) + (space + rest));
}

/// Where no option follows, the rule is as it was set so far, and what is left is all that
/// follows the spaces and tabs.
pub proof fn law_options_end_where_there_is_none(gap: Seq<char>, tail: Seq<char>, rule: RuleView)
    requires
        is_gap(gap),
        tail.len() > 0 ==> tail[0] != ' ' && tail[0] != '\t',
        !text::starts_with_no_case(tail, "-url"@),
        !text::starts_with_no_case(tail, "-ip-file"@),
        !text::starts_with_no_case(tail, "-result-count"@),
    ensures
        options(gap + tail, rule) == (Parsed::Done { rest: tail, value: rule }),
{
    text::lemma_run_then(gap, tail, CharClass::Blank);
}

/// An option without a space or tab after its tag, or without an argument after these, is
/// an error at the place where it is missing.
pub proof fn law_options_need_an_argument(
    gap: Seq<char>,
    tag: Seq<char>,
    space: Seq<char>,
    tail: Seq<char>,
    rule: RuleView,
)
    requires
        is_gap(gap),
        is_gap(space),
        tail.len() > 0 ==> tail[0] != ' ' && tail[0] != '\t',
        text::lowered(tag) == "-url"@ || text::lowered(tag) == "-ip-file"@ || text::lowered(tag)
            == "-result-count"@,
    ensures
        space.len() == 0 ==> options((gap + tag) + (space + tail), rule) == (Parsed::<
            RuleView,
        >::Error { at: tail, code: ErrorKind::Space }),
        space.len() > 0 && text::lowered(tag) != "-result-count"@ && ends_word(tail)
            ==> options((gap + tag) + (space + tail), rule) == (Parsed::<RuleView>::Error {
            at: tail,
            code: ErrorKind::IsNot,
        }),
        space.len() > 0 && text::lowered(tag) == "-result-count"@ && ends_number(tail)
            ==> options((gap + tag) + (space + tail), rule) == (Parsed::<RuleView>::Error {
            at: tail,
            code: ErrorKind::Digit,
        }),
{
    reveal_strlit("-url");
    reveal_strlit("-ip-file");
    reveal_strlit("-result-count");
    assert("-url"@.len() != "-result-count"@.len());
    assert("-ip-file"@.len() != "-result-count"@.len());
    lemma_option_tag(gap, tag, space + tail, text::lowered(tag));
    text::lemma_run_then(space, tail, CharClass::Blank);
    if space.len() == 0 {
        assert(space + tail =~= tail);
    }
    if ends_word(tail) {
        text::lemma_run_then(seq![], tail, CharClass::Token);
        assert(Seq::<char>::empty() + tail =~= tail);
    }
    if ends_number(tail) {
        text::lemma_run_then(seq![], tail, CharClass::Digit);
        assert(Seq::<char>::empty() + tail =~= tail);
    }
}

/// A line is about the name between its slashes; at first it sets nothing, and the options
/// follow.
pub proof fn law_lines_are_about_their_name(label: Seq<char>, tail: Seq<char>)
    requires
        is_word(label),
        forall|i: int| 0 <= i < label.len() ==> #[trigger] label[i] != '/',
    ensures
        slashed_domain(seq!['/'] + (label + (seq!['/'] + tail))) == (Parsed::Done {
            rest: tail,
            value: DomainView::Name(domain::named(label)),
        }),
        cfst_domain(seq!['/'] + (label + (seq!['/'] + tail))) == options(
            tail,
            RuleView {
                domain: DomainView::Name(domain::named(label)),
                ip_file: None,
                url: None,
                result_count: None,
            },
        ),
{
    let close = seq!['/'] + tail;
    let inner = label + close;
    let s = seq!['/'] + inner;
    assert(s.skip(1) =~= inner);
    text::lemma_run_then(label, close, CharClass::Label);
    assert(close.skip(1) =~= tail);
}

/// A line that does not begin with a name between slashes is an error at the place where
/// something else stands.
pub proof fn law_lines_need_a_name(s: Seq<char>, label: Seq<char>, tail: Seq<char>)
    requires
        s.len() > 0 ==> s[0] != '/',
        forall|i: int|
            0 <= i < label.len() ==> #[trigger] label[i] != ' ' && label[i] != '\t' && label[i]
                != '\r' && label[i] != '\n' && label[i] != '/',
        ends_word(tail) || (label.len() == 0 && tail[0] == '/'),
    ensures
        cfst_domain(s) == (Parsed::<RuleView>::Error { at: s, code: ErrorKind::Char }),
        label.len() == 0 ==> cfst_domain(seq!['/'] + (label + tail)) == (Parsed::<
            RuleView,
        >::Error { at: tail, code: ErrorKind::IsNot }),
        label.len() > 0 ==> cfst_domain(seq!['/'] + (label + tail)) == (Parsed::<
            RuleView,
        >::Error { at: tail, code: ErrorKind::Char }),
{
    let inner = label + tail;
    assert((seq!['/'] + inner).skip(1) =~= inner);
    text::lemma_run_then(label, tail, CharClass::Label);
    if label.len() == 0 {
        assert(inner =~= tail);
    }
}

/// A whole line with a file and a count: the rule has the file as it is written, the number
/// that the digits denote, and the name between the slashes, and nothing is left.
pub proof fn law_lines_keep_their_arguments(
    label: Seq<char>,
    gap: Seq<char>,
    space: Seq<char>,
    path: Seq<char>,
    between: Seq<char>,
    digits: Seq<char>,
)
    requires
        is_word(label),
        forall|i: int| 0 <= i < label.len() ==> #[trigger] label[i] != '/',
        is_gap(gap),
        is_gap(space),
        space.len() > 0,
        is_word(path),
        is_gap(between),
        between.len() > 0,
        is_digits(digits),
        decimal(digits) <= usize::MAX,
    ensures
        ({
            let none = Seq::<char>::empty();
            let count = (between + "-result-count"@) + (space + (digits + none));
            let file = (gap + "-ip-file"@) + (space + (path + count));
            cfst_domain(seq!['/'] + (label + (seq!['/'] + file))) == (Parsed::Done {
                rest: none,
                value: RuleView {
                    domain: DomainView::Name(domain::named(label)),
                    ip_file: Some(path),
                    url: None,
                    result_count: Some(decimal(digits) as usize),
                },
            })
        }),
{
    let none = Seq::<char>::empty();
    let count = (between + "-result-count"@) + (space + (digits + none));
    let file = (gap + "-ip-file"@) + (space + (path + count));
    let bare = bare_rule(DomainView::Name(domain::named(label)));
    let with_file = RuleView { ip_file: Some(path), ..bare };
    let whole = RuleView { result_count: Some(decimal(digits) as usize), ..with_file };
    reveal_strlit("-url");
    reveal_strlit("-ip-file");
    reveal_strlit("-result-count");
    assert(text::lowered("-ip-file"@) =~= "-ip-file"@);
    assert(text::lowered("-result-count"@) =~= "-result-count"@);
    assert(count[0] == between[0]);
    law_lines_are_about_their_name(label, file);
    law_ip_file_is_kept_as_written(gap, "-ip-file"@, space, path, count, bare);
    law_result_count_is_the_number(between, "-result-count"@, space, digits, none, with_file);
    law_options_end_where_there_is_none(none, none, whole);
    assert(none + none =~= none);
}

/// A duration is the number, in the unit that the letter after it stands for, whatever its
/// case: hours, minutes or seconds. Any other text after it is left. A number that does
/// not fit in 64 bits, or none, is an error.
pub proof fn law_durations_are_read_in_their_unit(digits: Seq<char>, tail: Seq<char>)
    requires
        is_digits(digits),
        ends_number(tail),
    ensures
        ({
            let n = decimal(digits);
            let read = duration_secs(digits + tail);
            let unit = if tail.len() > 0 {
                tail[0]
            } else {
                ' '
            };
            &&& n > u64::MAX ==> read == (Parsed::<nat>::Error {
                at: digits + tail,
                code: ErrorKind::Digit,
            })
            &&& n <= u64::MAX ==> {
                &&& unit == 'h' || unit == 'H' ==> read == (Parsed::Done {
                    rest: tail.skip(1),
                    value: 3600 * n,
                })
                &&& unit == 'm' || unit == 'M' ==> read == (Parsed::Done {
                    rest: tail.skip(1),
                    value: 60 * n,
                })
                &&& unit == 's' || unit == 'S' ==> read == (Parsed::Done {
                    rest: tail.skip(1),
                    value: n,
                })
                &&& unit != 'h' && unit != 'H' && unit != 'm' && unit != 'M' && unit != 's' && unit
                    != 'S' ==> read == (Parsed::Done { rest: tail, value: n })
            }
        }),
        duration_secs(tail) == (Parsed::<nat>::Error { at: tail, code: ErrorKind::Digit }),
{
    law_numbers_are_read_whole(digits, tail, u64::MAX as nat);
}

/// A speed is the number in bytes, or in bits in the unit that the letter after it stands
/// for, whatever its case: thousands, millions or thousands of millions; eight bits make a
/// byte. Any other text after it is left. A number that does not fit in 64 bits, or none,
/// is an error.
pub proof fn law_speeds_are_read_in_their_unit(digits: Seq<char>, tail: Seq<char>)
    requires
        is_digits(digits),
        ends_number(tail),
    ensures
        ({
            let n = decimal(digits);
            let read = speed(digits + tail);
            let unit = if tail.len() > 0 {
                tail[0]
            } else {
                ' '
            };
            &&& n > u64::MAX ==> read == (Parsed::<nat>::Error {
                at: digits + tail,
                code: ErrorKind::Digit,
            })
            &&& n <= u64::MAX ==> {
                &&& unit == 'k' || unit == 'K' ==> read == (Parsed::Done {
                    rest: tail.skip(1),
                    value: n * 125,
                })
                &&& unit == 'm' || unit == 'M' ==> read == (Parsed::Done {
                    rest: tail.skip(1),
                    value: n * 125_000,
                })
                &&& unit == 'g' || unit == 'G' ==> read == (Parsed::Done {
                    rest: tail.skip(1),
                    value: n * 125_000_000,
                })
                &&& unit != 'k' && unit != 'K' && unit != 'm' && unit != 'M' && unit != 'g' && unit
                    != 'G' ==> read == (Parsed::Done { rest: tail, value: n })
            }
        }),
        speed(tail) == (Parsed::<nat>::Error { at: tail, code: ErrorKind::Digit }),
{
    law_numbers_are_read_whole(digits, tail, u64::MAX as nat);
}

/// What is said of a rule in terms of characters is said of what it holds.
pub proof fn law_rules_are_seen_as_they_are(rule: CfstDomainRule)
    ensures
        rule@.domain == rule.domain@,
        rule.ip_file matches Some(path) ==> rule@.ip_file == Some(path@),
        rule.ip_file is None ==> rule@.ip_file is None,
        rule.url matches Some(url) ==> rule@.url == Some(url@),
        rule.url is None ==> rule@.url is None,
        rule@.result_count == rule.result_count,
{
}

/// What is said of the result of a parser in terms of characters is said of what it is.
pub proof fn law_outcomes_are_seen_as_they_are<'a>(
    r: Result<(&'a str, CfstDomainRule), CfstParseError<'a>>,
)
    ensures
        match r {
            Ok((rest, rule)) => outcome(r) == (Parsed::Done { rest: rest@, value: rule@ }),
            Err(CfstParseError::Error { input, code }) => outcome(r) == (Parsed::<
                RuleView,
            >::Error { at: input@, code }),
            Err(CfstParseError::Failure { input, code }) => outcome(r) == (Parsed::<
                RuleView,
            >::Failure { at: input@, code }),
        },
{
}

} // verus!
