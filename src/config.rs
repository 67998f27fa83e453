//! Rule records, as a configuration source declares them, and the chain of
//! translators that they build.
use vstd::prelude::*;
use vstd::string::StrSliceExecFns;
use crate::translators::{
    char_from_u32, is_scalar, lookup_outcome, lookup_translation, models, multirange_outcome,
    multirange_translation, range_outcome, range_translation, result_model, ConfigError, Field,
    RuleModel, Translator, ascii_filter,
};

verus! {

/// `c` is an ASCII hexadecimal digit.
pub open spec fn is_hex_digit(c: char) -> bool {
    ('0' <= c <= '9') || ('a' <= c <= 'f') || ('A' <= c <= 'F')
}

/// The value of a hexadecimal digit.
pub open spec fn hex_digit_value(c: char) -> int {
    if '0' <= c <= '9' {
        c as int - '0' as int
    } else if 'a' <= c <= 'f' {
        c as int - 'a' as int + 10
    } else {
        c as int - 'A' as int + 10
    }
}

/// The number that a sequence of hexadecimal digits writes, most significant first.
pub open spec fn hex_value(s: Seq<char>) -> int
    decreases s.len(),
{
    if s.len() == 0 {
        0
    } else {
        hex_value(s.drop_last()) * 16 + hex_digit_value(s.last())
    }
}

/// The end of the run of hexadecimal digits that starts at `k`.
pub open spec fn hex_run_end(s: Seq<char>, k: int) -> int
    decreases s.len() - k,
{
    if 0 <= k < s.len() && is_hex_digit(s[k]) {
        hex_run_end(s, k + 1)
    } else {
        k
    }
}

/// An escape `\u{...}` with one to eight hexadecimal digits starts at `i`.
pub open spec fn escape_at(s: Seq<char>, i: int) -> bool {
    let end = hex_run_end(s, i + 3);
    &&& 0 <= i
    &&& i + 3 <= s.len()
    &&& s[i] == '\\'
    &&& s[i + 1] == 'u'
    &&& s[i + 2] == '{'
    &&& i + 4 <= end <= i + 11
    &&& end < s.len()
    &&& s[end] == '}'
}

/// The first position from `i` on where an escape starts.
pub open spec fn first_escape_from(s: Seq<char>, i: int) -> Option<int>
    decreases s.len() - i,
{
    if i < 0 || i >= s.len() {
        None
    } else if escape_at(s, i) {
        Some(i)
    } else {
        first_escape_from(s, i + 1)
    }
}

/// The digits of the first escape in `s`.
pub open spec fn escape_digits(s: Seq<char>) -> Option<Seq<char>> {
    match first_escape_from(s, 0) {
        Some(i) => Some(s.subrange(i + 3, hex_run_end(s, i + 3))),
        None => None,
    }
}

/// The codepoint that a character literal names: the character itself where
/// the literal is one character long, else the value of its first escape.
pub open spec fn literal_codepoint(s: Seq<char>) -> Option<int> {
    if s.len() == 1 {
        Some(s[0] as int)
    } else {
        match escape_digits(s) {
            Some(d) => Some(hex_value(d)),
            None => None,
        }
    }
}

/// The codepoint of the character that a literal names, where it names one.
pub open spec fn literal_char(s: Seq<char>) -> Option<u32> {
    match literal_codepoint(s) {
        Some(v) => if is_scalar(v) {
            Some(v as u32)
        } else {
            None
        },
        None => None,
    }
}

/// Relies on regex's Regex::captures, which finds the leftmost match of the
/// escape pattern, and on Captures::get for the digits that it captured.
#[verifier::external_body]
fn find_escape_digits(input: &str) -> (r: Option<String>)
    ensures
        r is Some <==> escape_digits(input@) is Some,
        r matches Some(d) ==> escape_digits(input@) == Some(d@),
{
    let pattern = regex::Regex::new(r"\\u\{([0-9a-fA-F]{1,8})}").unwrap();
    match pattern.captures(input) {
        Some(caps) => match caps.get(1) {
            Some(m) => Some(m.as_str().to_string()),
            None => None,
        },
        None => None,
    }
}

/// The digits of a run are hexadecimal digits.
proof fn lemma_hex_run(s: Seq<char>, k: int)
    requires
        0 <= k,
    ensures
        k <= hex_run_end(s, k),
        k < hex_run_end(s, k) ==> hex_run_end(s, k) <= s.len(),
        forall|j: int| k <= j < hex_run_end(s, k) ==> is_hex_digit(#[trigger] s[j]),
    decreases s.len() - k,
{
    if 0 <= k < s.len() && is_hex_digit(s[k]) {
        lemma_hex_run(s, k + 1);
    }
}

/// The first escape from `i` on starts at or after `i` and is an escape.
proof fn lemma_first_escape(s: Seq<char>, i: int)
    ensures
        first_escape_from(s, i) matches Some(j) ==> i <= j && escape_at(s, j),
    decreases s.len() - i,
{
    if 0 <= i < s.len() && !escape_at(s, i) {
        lemma_first_escape(s, i + 1);
    }
}

/// The digits of an escape are one to eight hexadecimal digits.
proof fn lemma_escape_digits(s: Seq<char>)
    ensures
        escape_digits(s) matches Some(d) ==> 1 <= d.len() <= 8 && forall|j: int|
            0 <= j < d.len() ==> is_hex_digit(#[trigger] d[j]),
{
    lemma_first_escape(s, 0);
    if let Some(i) = first_escape_from(s, 0) {
        lemma_hex_run(s, i + 3);
    }
}

/// Sixteen to the power `n`.
pub open spec fn pow16(n: nat) -> int
    decreases n,
{
    if n == 0 {
        1
    } else {
        16 * pow16((n - 1) as nat)
    }
}

/// Sixteen to the power of at most eight fits in 33 bits.
proof fn lemma_pow16_bound(n: nat)
    requires
        n <= 8,
    ensures
        0 < pow16(n) <= 0x1_0000_0000,
    decreases 8 - n,
{
    if n < 8 {
        lemma_pow16_bound(n + 1);
    } else {
        reveal_with_fuel(pow16, 9);
    }
}

/// The value of `n` hexadecimal digits is below sixteen to the power `n`.
proof fn lemma_hex_value_bound(s: Seq<char>)
    requires
        forall|j: int| 0 <= j < s.len() ==> is_hex_digit(#[trigger] s[j]),
    ensures
        0 <= hex_value(s) < pow16(s.len()),
    decreases s.len(),
{
    if s.len() > 0 {
        let p = s.drop_last();
        assert forall|j: int| 0 <= j < p.len() implies is_hex_digit(#[trigger] p[j]) by {
            assert(p[j] == s[j]);
        }
        lemma_hex_value_bound(p);
        assert(is_hex_digit(s[s.len() - 1]));
        let a = hex_value(p);
        let b = pow16(p.len());
        let d = hex_digit_value(s.last());
        assert(a * 16 + d < 16 * b) by (nonlinear_arith)
            requires
                0 <= a < b,
                0 <= d < 16,
        ;
    }
}

/// The value of one to eight hexadecimal digits.
fn parse_hex(digits: &str) -> (r: u32)
    requires
        digits@.len() <= 8,
        forall|j: int| 0 <= j < digits@.len() ==> is_hex_digit(#[trigger] digits@[j]),
    ensures
        r as int == hex_value(digits@),
{
    let n: usize = digits.unicode_len();
    let mut acc: u64 = 0;
    let mut i: usize = 0;
    while i < n
        invariant
            n == digits@.len(),
            n <= 8,
            i <= n,
            forall|j: int| 0 <= j < digits@.len() ==> is_hex_digit(#[trigger] digits@[j]),
            acc as int == hex_value(digits@.subrange(0, i as int)),
            acc < pow16(i as nat),
        decreases n - i,
    {
        let c: char = digits.get_char(i);
        let d: u64 = if '0' <= c && c <= '9' {
            (c as u64) - ('0' as u64)
        } else if 'a' <= c && c <= 'f' {
            (c as u64) - ('a' as u64) + 10
        } else {
            (c as u64) - ('A' as u64) + 10
        };
        proof {
            lemma_pow16_bound((i + 1) as nat);
            assert(is_hex_digit(digits@[i as int]));
            assert(digits@.subrange(0, i + 1).drop_last() =~= digits@.subrange(0, i as int));
            let a = acc as int;
            let b = pow16(i as nat);
            assert(a * 16 + d < 16 * b) by (nonlinear_arith)
                requires
                    0 <= a < b,
                    0 <= d < 16,
            ;
        }
        acc = acc * 16 + d;
        i = i + 1;
    }
    proof {
        lemma_pow16_bound(n as nat);
        assert(digits@.subrange(0, n as int) =~= digits@);
    }
    acc as u32
}

/// Reads a character literal: a single character stands for itself, and
/// otherwise the first escape `\u{...}` of one to eight hexadecimal digits in
/// the text names the character by its codepoint. `None` where the literal
/// names no character.
pub fn getchar(input: &str) -> (r: Option<char>)
    ensures
        r is Some <==> literal_char(input@) is Some,
        r matches Some(c) ==> literal_char(input@) == Some(c as u32),
{
    if input.unicode_len() == 1 {
        return Some(input.get_char(0));
    }
    match find_escape_digits(input) {
        Some(digits) => {
            proof {
                lemma_escape_digits(input@);
            }
            let v: u32 = parse_hex(digits.as_str());
            char_from_u32(v)
        },
        None => None,
    }
}

/// One rule as a configuration source declares it: character parameters as
/// the literals written there, integer parameters as read.
pub enum RuleRecord {
    Range { source: String, target: String, size: i64 },
    Multirange { source: String, target: String, size: i64, slice: i64, iters: i64 },
    Lookup { source: String, target: String },
}

/// A record of a chain that builds no rule, with its position among the records.
#[derive(Clone, Copy, Debug, PartialEq, Eq, Structural)]
pub struct RuleError {
    pub index: usize,
    pub error: ConfigError,
}

/// An integer parameter, where it fits.
pub open spec fn int_param(v: i64, field: Field) -> Result<u32, ConfigError> {
    if 0 <= v <= u32::MAX {
        Ok(v as u32)
    } else {
        Err(ConfigError::IntOutOfRange { field, value: v })
    }
}

/// The codepoint of a character parameter, where its literal names a character.
pub open spec fn char_param(s: Seq<char>, field: Field) -> Result<u32, ConfigError> {
    match literal_char(s) {
        Some(c) => Ok(c),
        None => Err(ConfigError::InvalidChar { field }),
    }
}

/// What building a range rule from its declared parameters gives: the first
/// parameter that cannot be read, in the order source, target, size, or else
/// what building the rule from the values read gives.
pub open spec fn range_record_outcome(source: Seq<char>, target: Seq<char>, size: i64) -> Result<
    RuleModel,
    ConfigError,
> {
    let s = char_param(source, Field::Source);
    let t = char_param(target, Field::Target);
    let n = int_param(size, Field::Size);
    if s is Err {
        Err(s->Err_0)
    } else if t is Err {
        Err(t->Err_0)
    } else if n is Err {
        Err(n->Err_0)
    } else {
        range_outcome(s->Ok_0, t->Ok_0, n->Ok_0)
    }
}

/// What building a multirange rule from its declared parameters gives: the
/// first parameter that cannot be read, in the order source, target, size,
/// slice, iterations, or else what building the rule from the values read gives.
pub open spec fn multirange_record_outcome(
    source: Seq<char>,
    target: Seq<char>,
    size: i64,
    slice: i64,
    iters: i64,
) -> Result<RuleModel, ConfigError> {
    let s = char_param(source, Field::Source);
    let t = char_param(target, Field::Target);
    let n = int_param(size, Field::Size);
    let l = int_param(slice, Field::Slice);
    let k = int_param(iters, Field::Iters);
    if s is Err {
        Err(s->Err_0)
    } else if t is Err {
        Err(t->Err_0)
    } else if n is Err {
        Err(n->Err_0)
    } else if l is Err {
        Err(l->Err_0)
    } else if k is Err {
        Err(k->Err_0)
    } else {
        multirange_outcome(s->Ok_0, t->Ok_0, n->Ok_0, l->Ok_0, k->Ok_0)
    }
}

/// What building the rule of a record gives.
pub open spec fn record_outcome(record: RuleRecord) -> Result<RuleModel, ConfigError> {
    match record {
        RuleRecord::Range { source, target, size } => range_record_outcome(source@, target@, size),
        RuleRecord::Multirange { source, target, size, slice, iters } => multirange_record_outcome(
            source@,
            target@,
            size,
            slice,
            iters,
        ),
        RuleRecord::Lookup { source, target } => lookup_outcome(source@, target@),
    }
}

/// Reads an integer parameter.
fn int_field(v: i64, field: Field) -> (r: Result<u32, ConfigError>)
    ensures
        r == int_param(v, field),
{
    if 0 <= v && v <= u32::MAX as i64 {
        Ok(v as u32)
    } else {
        Err(ConfigError::IntOutOfRange { field, value: v })
    }
}

/// Reads a character parameter.
fn char_field(s: &str, field: Field) -> (r: Result<char, ConfigError>)
    ensures
        match r {
            Ok(c) => char_param(s@, field) == Ok::<u32, ConfigError>(c as u32),
            Err(e) => char_param(s@, field) == Err::<u32, ConfigError>(e),
        },
{
    match getchar(s) {
        Some(c) => Ok(c),
        None => Err(ConfigError::InvalidChar { field }),
    }
}

/// Builds a range rule from its declared parameters.
fn parse_rt(source: &str, target: &str, size: i64) -> (r: Result<Translator, ConfigError>)
    ensures
        result_model(r) == range_record_outcome(source@, target@, size),
{
    let s: char = match char_field(source, Field::Source) {
        Ok(c) => c,
        Err(e) => return Err(e),
    };
    let t: char = match char_field(target, Field::Target) {
        Ok(c) => c,
        Err(e) => return Err(e),
    };
    let n: u32 = match int_field(size, Field::Size) {
        Ok(v) => v,
        Err(e) => return Err(e),
    };
    range_translation(s, t, n)
}

/// Builds a multirange rule from its declared parameters.
fn parse_mrt(source: &str, target: &str, size: i64, slice: i64, iters: i64) -> (r: Result<
    Translator,
    ConfigError,
>)
    ensures
        result_model(r) == multirange_record_outcome(source@, target@, size, slice, iters),
{
    let s: char = match char_field(source, Field::Source) {
        Ok(c) => c,
        Err(e) => return Err(e),
    };
    let t: char = match char_field(target, Field::Target) {
        Ok(c) => c,
        Err(e) => return Err(e),
    };
    let n: u32 = match int_field(size, Field::Size) {
        Ok(v) => v,
        Err(e) => return Err(e),
    };
    let l: u32 = match int_field(slice, Field::Slice) {
        Ok(v) => v,
        Err(e) => return Err(e),
    };
    let k: u32 = match int_field(iters, Field::Iters) {
        Ok(v) => v,
        Err(e) => return Err(e),
    };
    multirange_translation(s, t, n, l, k)
}

/// Builds the rule of a record.
pub fn build_translator(record: &RuleRecord) -> (r: Result<Translator, ConfigError>)
    ensures
        result_model(r) == record_outcome(*record),
{
    match record {
        RuleRecord::Range { source, target, size } => parse_rt(source.as_str(), target.as_str(), *size),
        RuleRecord::Multirange { source, target, size, slice, iters } => parse_mrt(
            source.as_str(),
            target.as_str(),
            *size,
            *slice,
            *iters,
        ),
        RuleRecord::Lookup { source, target } => lookup_translation(source.as_str(), target.as_str()),
    }
}

/// The rules of the first `n` records, or the first record among them that
/// builds no rule.
pub open spec fn records_outcome(records: Seq<RuleRecord>, n: int) -> Result<
    Seq<RuleModel>,
    RuleError,
>
    decreases n,
{
    if n <= 0 {
        Ok(Seq::empty())
    } else {
        match records_outcome(records, n - 1) {
            Err(e) => Err(e),
            Ok(rules) => match record_outcome(records[n - 1]) {
                Ok(m) => Ok(rules.push(m)),
                Err(e) => Err(RuleError { index: (n - 1) as usize, error: e }),
            },
        }
    }
}

/// The rules that come before those of the records: the ASCII filter where
/// it is asked for.
pub open spec fn filter_prefix(use_ascii_filter: bool) -> Seq<RuleModel> {
    if use_ascii_filter {
        seq![RuleModel::AsciiFilter]
    } else {
        Seq::empty()
    }
}

/// What building a chain from records gives: the rules of all records, in
/// order, after the ASCII filter where it is asked for; or the first record
/// that builds no rule.
pub open spec fn chain_outcome(use_ascii_filter: bool, records: Seq<RuleRecord>) -> Result<
    Seq<RuleModel>,
    RuleError,
> {
    match records_outcome(records, records.len() as int) {
        Ok(rules) => Ok(filter_prefix(use_ascii_filter) + rules),
        Err(e) => Err(e),
    }
}

/// Once a record builds no rule, the records after it change nothing.
proof fn lemma_records_err(records: Seq<RuleRecord>, i: int, n: int)
    requires
        0 <= i <= n,
        records_outcome(records, i) is Err,
    ensures
        records_outcome(records, n) == records_outcome(records, i),
    decreases n - i,
{
    if i < n {
        lemma_records_err(records, i, n - 1);
    }
}

/// Builds the chain of a configuration: the ASCII filter first where
/// `use_ascii_filter` asks for it, then the rule of each record in order.
pub fn build_chain(use_ascii_filter: bool, records: &[RuleRecord]) -> (r: Result<
    Vec<Translator>,
    RuleError,
>)
    ensures
        match r {
            Ok(chain) => chain_outcome(use_ascii_filter, records@) == Ok::<
                Seq<RuleModel>,
                RuleError,
            >(models(chain@)),
            Err(e) => chain_outcome(use_ascii_filter, records@) == Err::<Seq<RuleModel>, RuleError>(
                e,
            ),
        },
{
    let mut chain: Vec<Translator> = Vec::new();
    if use_ascii_filter {
        chain.push(ascii_filter());
    }
    assert(models(chain@) =~= filter_prefix(use_ascii_filter));
    let mut i: usize = 0;
    while i < records.len()
        invariant
            i <= records@.len(),
            records_outcome(records@, i as int) is Ok,
            models(chain@) == filter_prefix(use_ascii_filter) + records_outcome(
                records@,
                i as int,
            )->Ok_0,
        decreases records@.len() - i,
    {
        match build_translator(&records[i]) {
            Ok(t) => {
                let ghost before = chain@;
                chain.push(t);
                assert(models(chain@) =~= models(before).push(t@));
                assert(models(chain@) =~= filter_prefix(use_ascii_filter) + records_outcome(
                    records@,
                    i + 1,
                )->Ok_0);
            },
            Err(e) => {
                proof {
                    lemma_records_err(records@, i + 1, records@.len() as int);
                }
                return Err(RuleError { index: i, error: e });
            },
        }
        i = i + 1;
    }
    Ok(chain)
}

} // verus!
