//! Split patterns: parsed, immutable descriptors of one split directive
//! each, produced from the caller's pattern-list text.
//!
//! A token is one of:
//! - a bare positive integer: cut immediately before that absolute,
//!   one-based line number; line numbers must be strictly increasing across
//!   the list;
//! - `/expr/`, `/expr/+N`, `/expr/-N` (also a bare trailing `N`): cut at the
//!   line matching `expr`, shifted by the signed line offset;
//! - `%expr%` with the same offset forms: identical cut-point computation,
//!   but the resulting segment is discarded rather than written;
//! - `{N}` or `{*}`: re-apply the immediately preceding regex-class pattern
//!   `N` more times, or until it stops matching or advancing. A repetition
//!   must directly follow a regex-class pattern.

use vstd::prelude::*;

use crate::rx::regex_valid;

verus! {

/// The parse-time failure: a malformed or out-of-order pattern token. It is
/// raised before any segment is produced.
#[derive(Clone, Copy, Debug, PartialEq, Eq, Structural)]
pub enum SplitError {
    InvalidPattern,
}

/// How often a repetition re-applies the preceding pattern.
#[derive(Clone, Copy, Debug)]
pub enum RepeatKind {
    Bounded { count: u64 },
    Unbounded,
}

/// One parsed split directive.
#[derive(Debug)]
pub enum Pattern {
    LineNumber { n: u64 },
    RegexMatch { expr: Vec<u8>, offset: i64 },
    SuppressedRegexMatch { expr: Vec<u8>, offset: i64 },
    Repeat { kind: RepeatKind },
}

/// The mathematical shape of a pattern: the two regex-class directives
/// collapse into one variant with a suppression flag, which is what the
/// split cursor acts on.
pub ghost enum PatternModel {
    LineNumber { n: int },
    Regex { expr: Seq<u8>, off: int, suppressed: bool },
    RepeatBounded { count: int },
    RepeatUnbounded,
}

impl View for Pattern {
    type V = PatternModel;

    open spec fn view(&self) -> PatternModel {
        match self {
            Pattern::LineNumber { n } => PatternModel::LineNumber { n: *n as int },
            Pattern::RegexMatch { expr, offset } => PatternModel::Regex {
                expr: expr@,
                off: *offset as int,
                suppressed: false,
            },
            Pattern::SuppressedRegexMatch { expr, offset } => PatternModel::Regex {
                expr: expr@,
                off: *offset as int,
                suppressed: true,
            },
            Pattern::Repeat { kind: RepeatKind::Bounded { count } } => PatternModel::RepeatBounded {
                count: *count as int,
            },
            Pattern::Repeat { kind: RepeatKind::Unbounded } => PatternModel::RepeatUnbounded,
        }
    }
}

pub open spec fn pat_views(pats: Seq<Pattern>) -> Seq<PatternModel> {
    pats.map_values(|p: Pattern| p@)
}

/// Every regex-class pattern in the list carries a well-formed expression.
pub open spec fn exprs_valid(pats: Seq<PatternModel>) -> bool {
    forall|k: int|
        0 <= k < pats.len() ==> (#[trigger] pats[k] matches PatternModel::Regex { expr, .. }
            ==> regex_valid(expr))
}

pub open spec fn is_digit(c: u8) -> bool {
    48 <= c <= 57
}

pub open spec fn all_digits(t: Seq<u8>) -> bool {
    t.len() > 0 && forall|k: int| 0 <= k < t.len() ==> is_digit(#[trigger] t[k])
}

/// The decimal value of a digit string.
pub open spec fn dec_val(t: Seq<u8>) -> int
    decreases t.len(),
{
    if t.len() == 0 {
        0
    } else {
        dec_val(t.drop_last()) * 10 + (t.last() - 48)
    }
}

pub proof fn lemma_dec_val_nonneg(t: Seq<u8>)
    requires
        forall|k: int| 0 <= k < t.len() ==> is_digit(#[trigger] t[k]),
    ensures
        dec_val(t) >= 0,
    decreases t.len(),
{
    if t.len() > 0 {
        lemma_dec_val_nonneg(t.drop_last());
    }
}

/// A digit string's value only grows as digits are appended.
pub proof fn lemma_dec_val_grow(t: Seq<u8>, j: int)
    requires
        forall|k: int| 0 <= k < t.len() ==> is_digit(#[trigger] t[k]),
        0 <= j <= t.len(),
    ensures
        dec_val(t.take(j)) <= dec_val(t),
    decreases t.len(),
{
    if j == t.len() {
        assert(t.take(j) =~= t);
    } else {
        assert(t.take(j) =~= t.drop_last().take(j));
        lemma_dec_val_grow(t.drop_last(), j);
        lemma_dec_val_nonneg(t.drop_last());
    }
}

/// The text after a regex token's closing delimiter: empty, or an optional
/// sign followed by digits whose value fits a signed line offset.
pub open spec fn offset_text_valid(t: Seq<u8>) -> bool {
    if t.len() == 0 {
        true
    } else if t[0] == 43 || t[0] == 45 {
        all_digits(t.subrange(1, t.len() as int)) && dec_val(t.subrange(1, t.len() as int))
            <= i64::MAX
    } else {
        all_digits(t) && dec_val(t) <= i64::MAX
    }
}

pub open spec fn offset_value(t: Seq<u8>) -> int {
    if t.len() == 0 {
        0
    } else if t[0] == 45 {
        -dec_val(t.subrange(1, t.len() as int))
    } else if t[0] == 43 {
        dec_val(t.subrange(1, t.len() as int))
    } else {
        dec_val(t)
    }
}

/// Index of the last occurrence of the delimiter `d` in `t` after position
/// 0 (position 0 is the opening delimiter), or -1 if there is none.
pub open spec fn last_delim(t: Seq<u8>, d: u8) -> int
    decreases t.len(),
{
    if t.len() <= 1 {
        -1
    } else if t.last() == d {
        t.len() - 1
    } else {
        last_delim(t.drop_last(), d)
    }
}

/// The pattern one token denotes, given the value of the last line-number
/// pattern seen so far and whether the directly preceding pattern was a
/// regex-class one; `None` when the token is malformed or out of order.
pub open spec fn token_pattern(t: Seq<u8>, last_ln: int, prev_regex: bool) -> Option<PatternModel> {
    if all_digits(t) {
        if last_ln < dec_val(t) && dec_val(t) <= u64::MAX {
            Some(PatternModel::LineNumber { n: dec_val(t) })
        } else {
            None
        }
    } else if t.len() >= 2 && (t[0] == 47 || t[0] == 37) {
        let k = last_delim(t, t[0]);
        if k >= 1 && regex_valid(t.subrange(1, k)) && offset_text_valid(
            t.subrange(k + 1, t.len() as int),
        ) {
            Some(
                PatternModel::Regex {
                    expr: t.subrange(1, k),
                    off: offset_value(t.subrange(k + 1, t.len() as int)),
                    suppressed: t[0] == 37,
                },
            )
        } else {
            None
        }
    } else if t.len() >= 3 && t[0] == 123 && t.last() == 125 {
        if !prev_regex {
            None
        } else if t.len() == 3 && t[1] == 42 {
            Some(PatternModel::RepeatUnbounded)
        } else if all_digits(t.subrange(1, t.len() - 1)) && dec_val(t.subrange(1, t.len() - 1))
            <= u64::MAX {
            Some(PatternModel::RepeatBounded { count: dec_val(t.subrange(1, t.len() - 1)) })
        } else {
            None
        }
    } else {
        None
    }
}

pub open spec fn next_last_ln(pm: PatternModel, last_ln: int) -> int {
    match pm {
        PatternModel::LineNumber { n } => n,
        _ => last_ln,
    }
}

/// The pattern list denoted by the tokens from `i` on, or `None` as soon as
/// one token is malformed or out of order.
pub open spec fn parse_from(toks: Seq<Seq<u8>>, i: int, last_ln: int, prev_regex: bool) -> Option<
    Seq<PatternModel>,
>
    decreases toks.len() - i,
{
    if i < 0 || i >= toks.len() {
        Some(Seq::empty())
    } else {
        match token_pattern(toks[i], last_ln, prev_regex) {
            None => None,
            Some(pm) => match parse_from(toks, i + 1, next_last_ln(pm, last_ln), pm is Regex) {
                None => None,
                Some(rest) => Some(seq![pm] + rest),
            },
        }
    }
}

/// The pattern list denoted by a whole token list, or `None` when any token
/// is malformed, a repetition has no preceding regex-class pattern, or a
/// line number is non-positive or out of monotonic order.
pub open spec fn parse_spec(toks: Seq<Seq<u8>>) -> Option<Seq<PatternModel>> {
    parse_from(toks, 0, 0, false)
}

proof fn lemma_parse_from_exprs_valid(toks: Seq<Seq<u8>>, i: int, last_ln: int, prev_regex: bool)
    requires
        parse_from(toks, i, last_ln, prev_regex) is Some,
    ensures
        exprs_valid(parse_from(toks, i, last_ln, prev_regex)->Some_0),
    decreases toks.len() - i,
{
    if i < 0 || i >= toks.len() {
    } else {
        let pm = token_pattern(toks[i], last_ln, prev_regex)->Some_0;
        lemma_parse_from_exprs_valid(toks, i + 1, next_last_ln(pm, last_ln), pm is Regex);
    }
}

/// A pattern list that parsed carries only well-formed expressions.
pub proof fn lemma_parse_spec_exprs_valid(toks: Seq<Seq<u8>>)
    requires
        parse_spec(toks) is Some,
    ensures
        exprs_valid(parse_spec(toks)->Some_0),
{
    lemma_parse_from_exprs_valid(toks, 0, 0, false);
}

fn is_all_digits(t: &Vec<u8>, from: usize, to: usize) -> (r: bool)
    requires
        from <= to <= t@.len(),
    ensures
        r == all_digits(t@.subrange(from as int, to as int)),
{
    if from == to {
        return false;
    }
    let mut k = from;
    while k < to
        invariant
            from <= k <= to <= t@.len(),
            forall|j: int| from <= j < k ==> is_digit(#[trigger] t@[j]),
        decreases to - k,
    {
        let c = t[k];
        if c < 48 || c > 57 {
            proof {
                assert(!is_digit(t@.subrange(from as int, to as int)[k - from]));
            }
            return false;
        }
        k += 1;
    }
    proof {
        assert forall|j: int| 0 <= j < to - from implies is_digit(
            #[trigger] t@.subrange(from as int, to as int)[j],
        ) by {
            assert(t@.subrange(from as int, to as int)[j] == t@[from + j]);
        }
    }
    true
}

/// Decimal value of the digit string `t[from..to]`, or `None` when it
/// exceeds the largest representable count.
fn scan_u64(t: &Vec<u8>, from: usize, to: usize) -> (r: Option<u64>)
    requires
        from <= to <= t@.len(),
        all_digits(t@.subrange(from as int, to as int)),
    ensures
        ({
            let s = t@.subrange(from as int, to as int);
            match r {
                Some(v) => dec_val(s) == v,
                None => dec_val(s) > u64::MAX,
            }
        }),
{
    let ghost s = t@.subrange(from as int, to as int);
    let mut v: u64 = 0;
    let mut k = from;
    while k < to
        invariant
            from <= k <= to <= t@.len(),
            s == t@.subrange(from as int, to as int),
            all_digits(s),
            v == dec_val(t@.subrange(from as int, k as int)),
        decreases to - k,
    {
        let c = t[k];
        proof {
            assert(s[k - from] == t@[k as int]);
        }
        let d = (c - 48) as u64;
        let wide: u128 = (v as u128) * 10 + (d as u128);
        proof {
            assert(t@.subrange(from as int, k + 1).drop_last() =~= t@.subrange(
                from as int,
                k as int,
            ));
            assert(t@.subrange(from as int, k + 1).last() == t@[k as int]);
        }
        if wide > u64::MAX as u128 {
            proof {
                assert(t@.subrange(from as int, k + 1) =~= s.take(k + 1 - from));
                lemma_dec_val_grow(s, k + 1 - from);
            }
            return None;
        }
        v = wide as u64;
        k += 1;
    }
    proof {
        assert(t@.subrange(from as int, k as int) =~= s);
    }
    Some(v)
}

/// Index of the token's closing delimiter, scanning from the end down to
/// (and excluding) the opening one.
fn find_last_delim(t: &Vec<u8>, d: u8) -> (r: Option<usize>)
    ensures
        match r {
            Some(k) => last_delim(t@, d) == k && 1 <= k < t@.len(),
            None => last_delim(t@, d) == -1,
        },
{
    let mut j = t.len();
    proof {
        assert(t@.take(j as int) =~= t@);
    }
    while j > 1
        invariant
            j <= t@.len(),
            last_delim(t@, d) == last_delim(t@.take(j as int), d),
        decreases j,
    {
        j -= 1;
        proof {
            assert(t@.take(j + 1).last() == t@[j as int]);
            assert(t@.take(j + 1).drop_last() =~= t@.take(j as int));
        }
        if t[j] == d {
            return Some(j);
        }
    }
    None
}

/// Signed line offset written after a regex token's closing delimiter, or
/// `None` when the text there is malformed.
fn parse_offset(t: &Vec<u8>, from: usize, to: usize) -> (r: Option<i64>)
    requires
        from <= to <= t@.len(),
    ensures
        ({
            let s = t@.subrange(from as int, to as int);
            match r {
                Some(v) => offset_text_valid(s) && v == offset_value(s),
                None => !offset_text_valid(s),
            }
        }),
{
    let ghost s = t@.subrange(from as int, to as int);
    if from == to {
        return Some(0i64);
    }
    let c = t[from];
    proof {
        assert(s[0] == t@[from as int]);
    }
    let neg = c == 45;
    let dfrom = if c == 45 || c == 43 {
        from + 1
    } else {
        from
    };
    proof {
        if dfrom > from {
            assert(t@.subrange(dfrom as int, to as int) =~= s.subrange(1, s.len() as int));
        } else {
            assert(t@.subrange(dfrom as int, to as int) =~= s);
        }
    }
    if !is_all_digits(t, dfrom, to) {
        return None;
    }
    match scan_u64(t, dfrom, to) {
        None => None,
        Some(v) => {
            if v <= 0x7fff_ffff_ffff_ffffu64 {
                let m = v as i64;
                if neg {
                    Some(-m)
                } else {
                    Some(m)
                }
            } else {
                None
            }
        },
    }
}

/// The pattern one token denotes, or `None` when the token is malformed or
/// out of order; mirrors `token_pattern` exactly.
fn classify_token(t: &Vec<u8>, last_ln: u64, prev_regex: bool) -> (r: Option<Pattern>)
    ensures
        match r {
            Some(p) => token_pattern(t@, last_ln as int, prev_regex) == Some(p@),
            None => token_pattern(t@, last_ln as int, prev_regex) is None,
        },
{
    let n = t.len();
    proof {
        assert(t@.subrange(0, n as int) =~= t@);
    }
    if is_all_digits(t, 0, n) {
        match scan_u64(t, 0, n) {
            Some(v) => {
                if last_ln < v {
                    Some(Pattern::LineNumber { n: v })
                } else {
                    None
                }
            },
            None => None,
        }
    } else if n >= 2 && (t[0] == 47 || t[0] == 37) {
        let d = t[0];
        match find_last_delim(t, d) {
            Some(k) => {
                let expr = vstd::slice::slice_to_vec(
                    vstd::slice::slice_subrange(t.as_slice(), 1, k),
                );
                if !crate::rx::regex_compiles(expr.as_slice()) {
                    None
                } else {
                    match parse_offset(t, k + 1, n) {
                        Some(off) => {
                            if d == 37 {
                                Some(Pattern::SuppressedRegexMatch { expr, offset: off })
                            } else {
                                Some(Pattern::RegexMatch { expr, offset: off })
                            }
                        },
                        None => None,
                    }
                }
            },
            None => None,
        }
    } else if n >= 3 && t[0] == 123 && t[n - 1] == 125 {
        proof {
            assert(t@.last() == t@[n - 1]);
        }
        if !prev_regex {
            None
        } else if n == 3 && t[1] == 42 {
            Some(Pattern::Repeat { kind: RepeatKind::Unbounded })
        } else if is_all_digits(t, 1, n - 1) {
            match scan_u64(t, 1, n - 1) {
                Some(c) => Some(Pattern::Repeat { kind: RepeatKind::Bounded { count: c } }),
                None => None,
            }
        } else {
            None
        }
    } else {
        None
    }
}

pub open spec fn prepend_opt(pre: Seq<PatternModel>, rest: Option<Seq<PatternModel>>) -> Option<
    Seq<PatternModel>,
> {
    match rest {
        None => None,
        Some(r) => Some(pre + r),
    }
}

/// Parse the caller's pattern-list tokens into split directives. Fails with
/// `InvalidPattern`, before any segment is produced, exactly when a token is
/// malformed, a regex does not compile, a repetition does not directly
/// follow a regex-class pattern, or a line number is non-positive or not
/// strictly increasing.
pub fn parse_patterns(tokens: &Vec<Vec<u8>>) -> (r: Result<Vec<Pattern>, SplitError>)
    ensures
        match r {
            Ok(pats) => parse_spec(tokens.deep_view()) == Some(pat_views(pats@)) && exprs_valid(
                pat_views(pats@),
            ),
            Err(e) => parse_spec(tokens.deep_view()) is None && e == SplitError::InvalidPattern,
        },
{
    let ghost tv = tokens.deep_view();
    let mut pats: Vec<Pattern> = Vec::new();
    let mut last_ln: u64 = 0;
    let mut prev_regex: bool = false;
    let mut i: usize = 0;
    proof {
        assert(pat_views(pats@) + parse_from(tv, 0, 0, false)->Some_0 =~= parse_from(
            tv,
            0,
            0,
            false,
        )->Some_0);
    }
    while i < tokens.len()
        invariant
            i <= tokens@.len(),
            tv == tokens.deep_view(),
            tokens@.len() == tv.len(),
            prepend_opt(pat_views(pats@), parse_from(tv, i as int, last_ln as int, prev_regex))
                == parse_spec(tv),
        decreases tokens@.len() - i,
    {
        let t = &tokens[i];
        proof {
            assert(t@ == tv[i as int]);
        }
        let ghost old_views = pat_views(pats@);
        match classify_token(t, last_ln, prev_regex) {
            None => {
                return Err(SplitError::InvalidPattern);
            },
            Some(p) => {
                proof {
                    assert(token_pattern(tv[i as int], last_ln as int, prev_regex) == Some(p@));
                }
                let ghost pm = p@;
                match &p {
                    Pattern::LineNumber { n } => {
                        last_ln = *n;
                        prev_regex = false;
                    },
                    Pattern::RegexMatch { .. } => {
                        prev_regex = true;
                    },
                    Pattern::SuppressedRegexMatch { .. } => {
                        prev_regex = true;
                    },
                    Pattern::Repeat { .. } => {
                        prev_regex = false;
                    },
                }
                pats.push(p);
                proof {
                    assert(pat_views(pats@) =~= old_views.push(pm));
                    if parse_from(tv, i + 1, last_ln as int, prev_regex) is Some {
                        let rest = parse_from(tv, i + 1, last_ln as int, prev_regex)->Some_0;
                        assert(old_views + (seq![pm] + rest) =~= old_views.push(pm) + rest);
                    }
                }
                i += 1;
            },
        }
    }
    proof {
        assert(pat_views(pats@) + Seq::<PatternModel>::empty() =~= pat_views(pats@));
        lemma_parse_spec_exprs_valid(tv);
    }
    Ok(pats)
}

} // verus!
