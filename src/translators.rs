//! Codepoint-mapping rules and the evaluation of chains of them.
use std::collections::HashMap;
use vstd::prelude::*;
use vstd::string::StrSliceExecFns;

verus! {

broadcast use {vstd::std_specs::hash::group_hash_axioms, vstd::utf8::char_is_scalar};

/// The largest Unicode scalar value.
pub const MAX_SCALAR: u32 = 0x10FFFF;

/// The first surrogate codepoint, which is no scalar value.
pub const SURROGATE_LO: u32 = 0xD800;

/// The last surrogate codepoint.
pub const SURROGATE_HI: u32 = 0xDFFF;

/// Codepoints below this bound are ASCII.
pub const ASCII_BOUND: u32 = 128;

/// `v` is a Unicode scalar value: at most 0x10FFFF and no surrogate.
pub open spec fn is_scalar(v: int) -> bool {
    0 <= v <= MAX_SCALAR && !(SURROGATE_LO <= v <= SURROGATE_HI)
}

/// Every codepoint of the block of `size` codepoints from `start` is a scalar value.
pub open spec fn scalar_block(start: int, size: int) -> bool {
    forall|k: int| start <= k < start + size ==> #[trigger] is_scalar(k)
}

/// A parameter of a rule, named in configuration errors.
#[derive(Clone, Copy, Debug, PartialEq, Eq, Structural)]
pub enum Field {
    Source,
    Target,
    Size,
    Slice,
    Iters,
}

/// Why a rule could not be built.
#[derive(Clone, Copy, Debug, PartialEq, Eq, Structural)]
pub enum ConfigError {
    /// A range rule of no codepoints.
    ZeroSize,
    /// The source block of a range rule ends at `end`, which is no scalar value.
    SourceOutOfRange { end: u64 },
    /// The target block, which ends at `end`, holds a codepoint that is no scalar value.
    TargetOutOfRange { end: u64 },
    /// A multirange rule whose blocks do not fit in their slice.
    SliceTooSmall { size: u32, slice: u32 },
    /// A multirange rule of no blocks.
    ZeroIters,
    /// The two sequences of a lookup rule differ in length.
    LengthMismatch { source_len: usize, target_len: usize },
    /// A character literal that names no single character.
    InvalidChar { field: Field },
    /// An integer parameter that does not fit.
    IntOutOfRange { field: Field, value: i64 },
}

/// What a rule does, as a mathematical object.
pub enum RuleModel {
    /// `size` consecutive codepoints from `source` onto as many from `target`.
    Range { source: u32, target: u32, size: u32 },
    /// `iters` blocks of `size` codepoints, `slice` apart from `source`, all onto
    /// the block of `size` codepoints from `target`.
    Multirange { source: u32, target: u32, size: u32, slice: u32, iters: u32 },
    /// An explicit table of replacements.
    Lookup { table: Map<u32, u32> },
    /// Every ASCII codepoint onto itself.
    AsciiFilter,
}

impl RuleModel {
    /// The replacement that the rule gives for `x`, or `None` where `x` is
    /// outside its domain.
    pub open spec fn apply(self, x: u32) -> Option<u32> {
        match self {
            RuleModel::Range { source, target, size } => {
                if source <= x < source + size {
                    Some((target + (x - source)) as u32)
                } else {
                    None
                }
            },
            RuleModel::Multirange { source, target, size, slice, iters } => {
                if source <= x < source + slice * iters && (x - source) % (slice as int) < size {
                    Some((target + (x - source) % (slice as int)) as u32)
                } else {
                    None
                }
            },
            RuleModel::Lookup { table } => {
                if table.contains_key(x) {
                    Some(table[x])
                } else {
                    None
                }
            },
            RuleModel::AsciiFilter => {
                if x < ASCII_BOUND {
                    Some(x)
                } else {
                    None
                }
            },
        }
    }

    /// The parameters of the rule keep every replacement a scalar value.
    pub open spec fn wf(self) -> bool {
        match self {
            RuleModel::Range { source, target, size } => range_params_ok(source, target, size),
            RuleModel::Multirange { source, target, size, slice, iters } => multirange_params_ok(
                source,
                target,
                size,
                slice,
                iters,
            ),
            RuleModel::Lookup { table } => forall|k: u32|
                #[trigger] table.contains_key(k) ==> is_scalar(table[k] as int),
            RuleModel::AsciiFilter => true,
        }
    }
}

/// A range rule is well formed: its blocks are not empty, the source block
/// ends on a scalar value and the target block holds scalar values only.
pub open spec fn range_params_ok(source: u32, target: u32, size: u32) -> bool {
    &&& size >= 1
    &&& is_scalar(source + size - 1)
    &&& scalar_block(target as int, size as int)
}

/// A multirange rule is well formed: each block fits in a slice, there is at
/// least one block, and the target block holds scalar values only.
pub open spec fn multirange_params_ok(
    source: u32,
    target: u32,
    size: u32,
    slice: u32,
    iters: u32,
) -> bool {
    &&& slice >= size
    &&& iters >= 1
    &&& scalar_block(target as int, size as int)
}

/// The private representation of a rule.
enum Rule {
    Range { source: u32, target: u32, size: u32 },
    Multirange { source: u32, target: u32, size: u32, slice: u32, iters: u32 },
    Lookup { table: HashMap<u32, u32> },
    AsciiFilter,
}

/// One codepoint-mapping rule. Built once by the constructors of this module,
/// never changed afterwards.
pub struct Translator {
    rule: Rule,
}

impl View for Translator {
    type V = RuleModel;

    closed spec fn view(&self) -> RuleModel {
        match self.rule {
            Rule::Range { source, target, size } => RuleModel::Range { source, target, size },
            Rule::Multirange { source, target, size, slice, iters } => RuleModel::Multirange {
                source,
                target,
                size,
                slice,
                iters,
            },
            Rule::Lookup { table } => RuleModel::Lookup { table: table@ },
            Rule::AsciiFilter => RuleModel::AsciiFilter,
        }
    }
}

impl Translator {
    #[verifier::type_invariant]
    spec fn inv(self) -> bool {
        self@.wf()
    }

    /// The replacement for `ord`, or `None` where the rule does not match it.
    pub fn apply(&self, ord: u32) -> (r: Option<u32>)
        ensures
            r == self@.apply(ord),
    {
        proof {
            use_type_invariant(self);
        }
        match &self.rule {
            Rule::Range { source, target, size } => {
                if ord >= *source && ord - *source < *size {
                    assert(is_scalar(*target + (ord - *source)));
                    Some(*target + (ord - *source))
                } else {
                    None
                }
            },
            Rule::Multirange { source, target, size, slice, iters } => {
                assert((*slice as u64) * (*iters as u64) <= 0xFFFF_FFFFu64 * 0xFFFF_FFFFu64)
                    by (nonlinear_arith)
                    requires
                        *slice <= 0xFFFF_FFFFu32,
                        *iters <= 0xFFFF_FFFFu32,
                ;
                if ord >= *source && ((ord - *source) as u64) < (*slice as u64) * (*iters as u64) {
                    assert(*slice != 0) by (nonlinear_arith)
                        requires
                            ((ord - *source) as u64) < (*slice as u64) * (*iters as u64),
                    ;
                    let offset: u32 = (ord - *source) % *slice;
                    if offset < *size {
                        assert(is_scalar(*target + offset));
                        Some(*target + offset)
                    } else {
                        None
                    }
                } else {
                    None
                }
            },
            Rule::Lookup { table } => match table.get(&ord) {
                Some(v) => Some(*v),
                None => None,
            },
            Rule::AsciiFilter => {
                if ord < ASCII_BOUND {
                    Some(ord)
                } else {
                    None
                }
            },
        }
    }
}

/// Whether `v` is a scalar value.
fn scalar_check(v: u64) -> (r: bool)
    ensures
        r == is_scalar(v as int),
{
    v <= MAX_SCALAR as u64 && !(SURROGATE_LO as u64 <= v && v <= SURROGATE_HI as u64)
}

/// Whether the block of `size` codepoints from `start` holds scalar values only.
fn block_check(start: u32, size: u32) -> (r: bool)
    ensures
        r == scalar_block(start as int, size as int),
{
    let end: u64 = start as u64 + size as u64;
    let r = size == 0 || (end <= MAX_SCALAR as u64 + 1 && (end <= SURROGATE_LO as u64
        || start > SURROGATE_HI));
    proof {
        if !r {
            let k: int = if end > MAX_SCALAR as u64 + 1 {
                end - 1
            } else if start >= SURROGATE_LO {
                start as int
            } else {
                SURROGATE_LO as int
            };
            assert(start <= k < start + size && !is_scalar(k));
        }
    }
    r
}

/// The last codepoint of a block that is not empty.
fn block_end(start: u32, size: u32) -> (r: u64)
    requires
        size >= 1,
    ensures
        r == start + size - 1,
{
    start as u64 + size as u64 - 1
}

/// A constructor's result, with the rule in place of the translator.
pub open spec fn result_model(r: Result<Translator, ConfigError>) -> Result<RuleModel, ConfigError> {
    match r {
        Ok(t) => Ok(t@),
        Err(e) => Err(e),
    }
}

/// What building a range rule gives: the first error that applies, in the
/// order size, source block, target block, or else the rule.
pub open spec fn range_outcome(source: u32, target: u32, size: u32) -> Result<
    RuleModel,
    ConfigError,
> {
    if size == 0 {
        Err(ConfigError::ZeroSize)
    } else if !is_scalar(source + size - 1) {
        Err(ConfigError::SourceOutOfRange { end: (source + size - 1) as u64 })
    } else if !scalar_block(target as int, size as int) {
        Err(ConfigError::TargetOutOfRange { end: (target + size - 1) as u64 })
    } else {
        Ok(RuleModel::Range { source, target, size })
    }
}

/// What building a multirange rule gives: the first error that applies, in
/// the order slice, iterations, target block, or else the rule.
pub open spec fn multirange_outcome(
    source: u32,
    target: u32,
    size: u32,
    slice: u32,
    iters: u32,
) -> Result<RuleModel, ConfigError> {
    if slice < size {
        Err(ConfigError::SliceTooSmall { size, slice })
    } else if iters == 0 {
        Err(ConfigError::ZeroIters)
    } else if !scalar_block(target as int, size as int) {
        Err(ConfigError::TargetOutOfRange { end: (target + size - 1) as u64 })
    } else {
        Ok(RuleModel::Multirange { source, target, size, slice, iters })
    }
}

/// Builds the rule that maps the `size` codepoints from `source` one to one,
/// in order, onto the `size` codepoints from `target`.
pub fn range_translation(source: char, target: char, size: u32) -> (r: Result<
    Translator,
    ConfigError,
>)
    ensures
        result_model(r) == range_outcome(source as u32, target as u32, size),
        r is Ok <==> range_params_ok(source as u32, target as u32, size),
{
    let s: u32 = source as u32;
    let t: u32 = target as u32;
    if size == 0 {
        return Err(ConfigError::ZeroSize);
    }
    let source_end: u64 = block_end(s, size);
    if !scalar_check(source_end) {
        return Err(ConfigError::SourceOutOfRange { end: source_end });
    }
    if !block_check(t, size) {
        return Err(ConfigError::TargetOutOfRange { end: block_end(t, size) });
    }
    Ok(Translator { rule: Rule::Range { source: s, target: t, size } })
}

/// Builds the rule that maps `iters` blocks of `size` codepoints, the first
/// at `source` and each `slice` codepoints after the one before, all onto the
/// `size` codepoints from `target`.
pub fn multirange_translation(
    source: char,
    target: char,
    size: u32,
    slice: u32,
    iters: u32,
) -> (r: Result<Translator, ConfigError>)
    ensures
        result_model(r) == multirange_outcome(source as u32, target as u32, size, slice, iters),
        r is Ok <==> multirange_params_ok(source as u32, target as u32, size, slice, iters),
{
    let s: u32 = source as u32;
    let t: u32 = target as u32;
    if slice < size {
        return Err(ConfigError::SliceTooSmall { size, slice });
    }
    if iters == 0 {
        return Err(ConfigError::ZeroIters);
    }
    if !block_check(t, size) {
        return Err(ConfigError::TargetOutOfRange { end: block_end(t, size) });
    }
    Ok(Translator { rule: Rule::Multirange { source: s, target: t, size, slice, iters } })
}

/// The replacement for `x` among the first `n` pairs of a lookup table: the
/// target codepoint at the first position where the source codepoint is `x`.
pub open spec fn lookup_in(source: Seq<char>, target: Seq<char>, n: int, x: u32) -> Option<u32>
    decreases n,
{
    if n <= 0 {
        None
    } else {
        match lookup_in(source, target, n - 1, x) {
            Some(v) => Some(v),
            None => if source[n - 1] as u32 == x {
                Some(target[n - 1] as u32)
            } else {
                None
            },
        }
    }
}

/// The replacement for `x` in the table of all pairs of `source` and `target`.
pub open spec fn lookup_seq(source: Seq<char>, target: Seq<char>, x: u32) -> Option<u32> {
    lookup_in(source, target, source.len() as int, x)
}

/// The table of all pairs of `source` and `target`.
pub open spec fn lookup_table(source: Seq<char>, target: Seq<char>) -> Map<u32, u32> {
    Map::new(
        |x: u32| lookup_seq(source, target, x) is Some,
        |x: u32| lookup_seq(source, target, x)->Some_0,
    )
}

/// What building a lookup rule gives.
pub open spec fn lookup_outcome(source: Seq<char>, target: Seq<char>) -> Result<
    RuleModel,
    ConfigError,
> {
    if source.len() != target.len() {
        Err(
            ConfigError::LengthMismatch {
                source_len: source.len() as usize,
                target_len: target.len() as usize,
            },
        )
    } else {
        Ok(RuleModel::Lookup { table: lookup_table(source, target) })
    }
}

/// Builds the rule that maps the character at each position of `source` to the
/// character at the same position of `target`. Where a character occurs more
/// than once in `source`, its first position decides.
pub fn lookup_translation(source: &str, target: &str) -> (r: Result<Translator, ConfigError>)
    ensures
        result_model(r) == lookup_outcome(source@, target@),
        r matches Ok(t) ==> forall|x: u32| #[trigger] t@.apply(x) == lookup_seq(source@, target@, x),
{
    let n: usize = source.unicode_len();
    let m: usize = target.unicode_len();
    if n != m {
        return Err(ConfigError::LengthMismatch { source_len: n, target_len: m });
    }
    let mut table: HashMap<u32, u32> = HashMap::new();
    let mut i: usize = 0;
    while i < n
        invariant
            n == source@.len(),
            n == target@.len(),
            i <= n,
            forall|x: u32|
                #[trigger] lookup_in(source@, target@, i as int, x) == (if table@.contains_key(x) {
                    Some(table@[x])
                } else {
                    None
                }),
            forall|k: u32| #[trigger] table@.contains_key(k) ==> is_scalar(table@[k] as int),
        decreases n - i,
    {
        let ghost before = table@;
        let s: u32 = source.get_char(i) as u32;
        let t: u32 = target.get_char(i) as u32;
        if !table.contains_key(&s) {
            table.insert(s, t);
        }
        proof {
            assert forall|x: u32|
                #[trigger] lookup_in(source@, target@, i + 1, x) == (if table@.contains_key(x) {
                    Some(table@[x])
                } else {
                    None
                }) by {
                assert(lookup_in(source@, target@, i as int, x) == (if before.contains_key(x) {
                    Some(before[x])
                } else {
                    None
                }));
            }
        }
        i = i + 1;
    }
    assert(table@ =~= lookup_table(source@, target@));
    Ok(Translator { rule: Rule::Lookup { table } })
}

/// The filter that passes every ASCII codepoint through as a match and
/// matches nothing else.
pub fn ascii_filter() -> (r: Translator)
    ensures
        r@ == RuleModel::AsciiFilter,
{
    Translator { rule: Rule::AsciiFilter }
}


/// The rules of a chain of translators.
pub open spec fn models(chain: Seq<Translator>) -> Seq<RuleModel> {
    chain.map_values(|t: Translator| t@)
}

/// What a chain of rules makes of `x`: the replacement of the first rule that
/// matches it, or `x` itself where none does.
pub open spec fn chain_apply(rules: Seq<RuleModel>, x: u32) -> u32
    decreases rules.len(),
{
    if rules.len() == 0 {
        x
    } else {
        match rules[0].apply(x) {
            Some(y) => y,
            None => chain_apply(rules.drop_first(), x),
        }
    }
}

/// A well-formed rule replaces a codepoint with a scalar value only.
proof fn lemma_apply_scalar(rule: RuleModel, x: u32)
    requires
        rule.wf(),
    ensures
        rule.apply(x) matches Some(y) ==> is_scalar(y as int),
{
    match rule {
        RuleModel::Range { source, target, size } => {
            if source <= x < source + size {
                assert(is_scalar(target + (x - source)));
            }
        },
        RuleModel::Multirange { source, target, size, slice, iters } => {
            if source <= x < source + slice * iters && (x - source) % (slice as int) < size {
                assert(is_scalar(target + (x - source) % (slice as int)));
            }
        },
        _ => {},
    }
}

/// Relies on char::from_u32: it gives the character of a Unicode scalar value
/// and `None` for any other value.
#[verifier::external_body]
pub(crate) fn char_from_u32(v: u32) -> (r: Option<char>)
    ensures
        r is Some <==> is_scalar(v as int),
        r matches Some(c) ==> c as u32 == v,
{
    char::from_u32(v)
}

/// Runs a chain of translators on a single character: the first translator
/// that matches it gives the result, and a character that none matches is
/// left as it is.
pub fn translate(source: char, translator: &[Translator]) -> (r: char)
    ensures
        r as u32 == chain_apply(models(translator@), source as u32),
{
    let ord: u32 = source as u32;
    let ghost rules = models(translator@);
    let mut i: usize = 0;
    assert(rules.subrange(0, rules.len() as int) =~= rules);
    while i < translator.len()
        invariant
            i <= translator@.len(),
            ord == source as u32,
            rules == models(translator@),
            chain_apply(rules, ord) == chain_apply(rules.subrange(i as int, rules.len() as int), ord),
        decreases translator@.len() - i,
    {
        let t: &Translator = &translator[i];
        proof {
            use_type_invariant(t);
            lemma_apply_scalar(t@, ord);
            assert(rules[i as int] == t@);
            assert(rules.subrange(i as int, rules.len() as int)[0] == t@);
            assert(rules.subrange(i as int, rules.len() as int).drop_first() =~= rules.subrange(
                i + 1,
                rules.len() as int,
            ));
        }
        if let Some(out) = t.apply(ord) {
            return match char_from_u32(out) {
                Some(c) => c,
                None => source,
            };
        }
        i = i + 1;
    }
    source
}

/// Runs a chain of translators, held in a vector, on a single character.
pub fn translate_vec(source: char, translator: &Vec<Translator>) -> (r: char)
    ensures
        r as u32 == chain_apply(models(translator@), source as u32),
{
    translate(source, translator.as_slice())
}

/// Runs a single translator on a single character: its replacement where it
/// matches, the character itself where it does not.
pub fn translate_one(source: char, translator: &Translator) -> (r: char)
    ensures
        r as u32 == (match translator@.apply(source as u32) {
            Some(y) => y,
            None => source as u32,
        }),
{
    let ord: u32 = source as u32;
    proof {
        use_type_invariant(translator);
        lemma_apply_scalar(translator@, ord);
    }
    match translator.apply(ord) {
        Some(out) => match char_from_u32(out) {
            Some(c) => c,
            None => source,
        },
        None => source,
    }
}

/// Runs a chain of translators on each character of a text, one for one.
pub fn translate_text(text: &[char], translator: &[Translator]) -> (r: Vec<char>)
    ensures
        r@.len() == text@.len(),
        forall|i: int|
            0 <= i < text@.len() ==> #[trigger] r@[i] as u32 == chain_apply(
                models(translator@),
                text@[i] as u32,
            ),
{
    let mut out: Vec<char> = Vec::with_capacity(text.len());
    let mut i: usize = 0;
    while i < text.len()
        invariant
            i <= text@.len(),
            out@.len() == i,
            forall|j: int|
                0 <= j < i ==> #[trigger] out@[j] as u32 == chain_apply(
                    models(translator@),
                    text@[j] as u32,
                ),
        decreases text@.len() - i,
    {
        out.push(translate(text[i], translator));
        i = i + 1;
    }
    out
}


/// A range rule matches no codepoint outside its source block.
pub proof fn lemma_range_outside(source: u32, target: u32, size: u32, c: u32)
    requires
        range_params_ok(source, target, size),
        c < source || c >= source + size,
    ensures
        (RuleModel::Range { source, target, size }).apply(c) is None,
{
}

/// A range rule maps each codepoint of its source block to the codepoint at
/// the same offset in its target block, and the range rule with source and
/// target exchanged maps that codepoint back.
pub proof fn lemma_range_round_trip(source: u32, target: u32, size: u32, c: u32)
    requires
        range_params_ok(source, target, size),
        source <= c < source + size,
    ensures
        (RuleModel::Range { source, target, size }).apply(c) == Some((target + (c - source)) as u32),
        (RuleModel::Range { source: target, target: source, size }).apply(
            (target + (c - source)) as u32,
        ) == Some(c),
{
    assert(is_scalar(target + (c - source)));
}

/// A multirange rule matches a codepoint of its domain exactly where the
/// codepoint's offset within its slice is below the block size, and then
/// gives the codepoint at that offset in the target block; it matches nothing
/// outside its domain.
pub proof fn lemma_multirange_match(
    source: u32,
    target: u32,
    size: u32,
    slice: u32,
    iters: u32,
    c: u32,
)
    requires
        multirange_params_ok(source, target, size, slice, iters),
    ensures
        source <= c < source + slice * iters ==> ((RuleModel::Multirange {
            source,
            target,
            size,
            slice,
            iters,
        }).apply(c) is Some <==> (c - source) % (slice as int) < size),
        !(source <= c < source + slice * iters) ==> (RuleModel::Multirange {
            source,
            target,
            size,
            slice,
            iters,
        }).apply(c) is None,
        (RuleModel::Multirange { source, target, size, slice, iters }).apply(c) matches Some(y)
            ==> y == target + (c - source) % (slice as int),
{
    let rule = RuleModel::Multirange { source, target, size, slice, iters };
    if rule.apply(c) is Some {
        assert(is_scalar(target + (c - source) % (slice as int)));
    }
}

/// Where the first `n` pairs of a lookup table hold `x` as a source, the
/// table gives the target of one of those pairs, and otherwise nothing.
proof fn lemma_lookup_in(source: Seq<char>, target: Seq<char>, n: int, x: u32)
    requires
        0 <= n <= source.len(),
        n <= target.len(),
    ensures
        lookup_in(source, target, n, x) is Some <==> exists|j: int|
            0 <= j < n && #[trigger] source[j] as u32 == x,
        lookup_in(source, target, n, x) matches Some(v) ==> exists|j: int|
            0 <= j < n && #[trigger] source[j] as u32 == x && v == target[j] as u32,
    decreases n,
{
    if n > 0 {
        lemma_lookup_in(source, target, n - 1, x);
    }
}

/// A lookup table built from two sequences of equal length gives, for the
/// source character of each pair, that pair's target character, wherever a
/// character that occurs more than once as a source has one target throughout.
pub proof fn lemma_lookup_round_trip(source: Seq<char>, target: Seq<char>, i: int)
    requires
        source.len() == target.len(),
        0 <= i < source.len(),
        forall|j: int, k: int|
            0 <= j < source.len() && 0 <= k < source.len() && source[j] == source[k] ==> target[j]
                == target[k],
    ensures
        lookup_seq(source, target, source[i] as u32) == Some(target[i] as u32),
{
    let x = source[i] as u32;
    lemma_lookup_in(source, target, source.len() as int, x);
    let v = lookup_seq(source, target, x)->Some_0;
    let j = choose|j: int| 0 <= j < source.len() && #[trigger] source[j] as u32 == x && v == target[j] as u32;
    vstd::utf8::char_u32_cast(source[j], x);
    vstd::utf8::char_u32_cast(source[i], x);
}

/// A chain that starts with the ASCII filter leaves every ASCII codepoint as
/// it is, whatever rules follow.
pub proof fn lemma_ascii_filter_first(rules: Seq<RuleModel>, x: u32)
    requires
        rules.len() >= 1,
        rules[0] == RuleModel::AsciiFilter,
        x < ASCII_BOUND,
    ensures
        chain_apply(rules, x) == x,
{
}

} // verus!
