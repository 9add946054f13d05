//! Parsing one rule with adblock-rust, and whether a parsed rule is supported.
use adblock::lists::{parse_filter, FilterFormat, FilterParseError, ParseOptions, ParsedFilter, RuleTypes};
use adblock::resources::PermissionMask;
use vstd::prelude::*;
use vstd::string::StringExecFns;

use crate::text::trim;

verus! {

/// A rule as adblock-rust parsed it; opaque here.
#[verifier::external_type_specification]
#[verifier::external_body]
pub struct ExParsedFilter(ParsedFilter);

/// What adblock-rust made of one rule: a parsed network or cosmetic filter, the
/// `Debug` text of a network or cosmetic parse error, or one of the two errors that
/// name no filter type.
pub enum FilterOutcome {
    Network(ParsedFilter),
    Cosmetic(ParsedFilter),
    NetworkError(String),
    CosmeticError(String),
    Unsupported,
    Empty,
}

/// A [`FilterOutcome`] with its parsed filter left out.
pub enum OutcomeView {
    Network,
    Cosmetic,
    NetworkError(Seq<char>),
    CosmeticError(Seq<char>),
    Unsupported,
    Empty,
}

impl View for FilterOutcome {
    type V = OutcomeView;

    open spec fn view(&self) -> OutcomeView {
        match self {
            FilterOutcome::Network(_) => OutcomeView::Network,
            FilterOutcome::Cosmetic(_) => OutcomeView::Cosmetic,
            FilterOutcome::NetworkError(e) => OutcomeView::NetworkError(e@),
            FilterOutcome::CosmeticError(e) => OutcomeView::CosmeticError(e@),
            FilterOutcome::Unsupported => OutcomeView::Unsupported,
            FilterOutcome::Empty => OutcomeView::Empty,
        }
    }
}

/// What `adblock::lists::parse_filter` makes of a rule (in debug mode, with every
/// rule type, the standard format and no permissions).
pub uninterp spec fn adblock_outcome(rule: Seq<char>) -> OutcomeView;

/// Parses `rule` with `adblock::lists::parse_filter` (debug mode, all rule types,
/// standard format, an empty permission mask) and tells the result's variants apart;
/// an error keeps its `Debug` text. The contract claims that the outcome is
/// [`adblock_outcome`] of the rule (a function of the rule alone), and that a rule
/// that is blank once trimmed is `Empty` (`parse_filter` trims the line first).
#[verifier::external_body]
fn parse_with_adblock(rule: &str) -> (out: FilterOutcome)
    ensures
        out@ == adblock_outcome(rule@),
        trim(rule@).len() == 0 ==> out@ == OutcomeView::Empty,
{
    let opts = ParseOptions {
        rule_types: RuleTypes::All,
        format: FilterFormat::Standard,
        permissions: PermissionMask::from_bits(0),
    };
    match parse_filter(rule, true, opts) {
        Ok(p @ ParsedFilter::Network(_)) => FilterOutcome::Network(p),
        Ok(p @ ParsedFilter::Cosmetic(_)) => FilterOutcome::Cosmetic(p),
        Err(FilterParseError::Network(e)) => FilterOutcome::NetworkError(format!("{e:?}")),
        Err(FilterParseError::Cosmetic(e)) => FilterOutcome::CosmeticError(format!("{e:?}")),
        Err(FilterParseError::Unsupported) => FilterOutcome::Unsupported,
        Err(FilterParseError::Empty) => FilterOutcome::Empty,
    }
}

/// The parsed filter of an outcome, if any.
pub open spec fn outcome_filter(o: FilterOutcome) -> Option<ParsedFilter> {
    match o {
        FilterOutcome::Network(p) => Some(p),
        FilterOutcome::Cosmetic(p) => Some(p),
        _ => None,
    }
}

/// The filter type an outcome names: `network`, `cosmetic`, or none.
pub open spec fn outcome_type(o: OutcomeView) -> Option<Seq<char>> {
    match o {
        OutcomeView::Network | OutcomeView::NetworkError(_) => Some("network"@),
        OutcomeView::Cosmetic | OutcomeView::CosmeticError(_) => Some("cosmetic"@),
        _ => None,
    }
}

/// The error text of an outcome: the parse error's text, `unsupported`, `empty`,
/// or none for a parsed filter.
pub open spec fn outcome_error(o: OutcomeView) -> Option<Seq<char>> {
    match o {
        OutcomeView::NetworkError(e) => Some(e),
        OutcomeView::CosmeticError(e) => Some(e),
        OutcomeView::Unsupported => Some("unsupported"@),
        OutcomeView::Empty => Some("empty"@),
        _ => None,
    }
}

/// An optional static string, taken by its view.
pub open spec fn opt_str_view(s: Option<&'static str>) -> Option<Seq<char>> {
    match s {
        Some(t) => Some(t@),
        None => None,
    }
}

/// An optional string, taken by its view.
pub open spec fn opt_string_view(s: Option<String>) -> Option<Seq<char>> {
    match s {
        Some(t) => Some(t@),
        None => None,
    }
}

/// Splits an outcome into the parsed filter, the filter type and the error text.
pub fn classify(outcome: FilterOutcome) -> (r: (Option<ParsedFilter>, Option<&'static str>, Option<String>))
    ensures
        r.0 == outcome_filter(outcome),
        opt_str_view(r.1) == outcome_type(outcome@),
        opt_string_view(r.2) == outcome_error(outcome@),
{
    match outcome {
        FilterOutcome::Network(p) => (Some(p), Some("network"), None),
        FilterOutcome::Cosmetic(p) => (Some(p), Some("cosmetic"), None),
        FilterOutcome::NetworkError(e) => (None, Some("network"), Some(e)),
        FilterOutcome::CosmeticError(e) => (None, Some("cosmetic"), Some(e)),
        FilterOutcome::Unsupported => (None, None, Some(String::from_str("unsupported"))),
        FilterOutcome::Empty => (None, None, Some(String::from_str("empty"))),
    }
}

/// Parses one rule: the parsed filter (if adblock-rust accepts it), the filter type
/// (`network` or `cosmetic`, when adblock-rust could tell), and the error text (when
/// it rejects the rule).
pub fn parse(rule: &str) -> (r: (Option<ParsedFilter>, Option<&'static str>, Option<String>))
    ensures
        r.0 is Some <==> (adblock_outcome(rule@) is Network || adblock_outcome(rule@) is Cosmetic),
        opt_str_view(r.1) == outcome_type(adblock_outcome(rule@)),
        opt_string_view(r.2) == outcome_error(adblock_outcome(rule@)),
        trim(rule@).len() == 0 ==> r.0 is None && r.1 is None && opt_string_view(r.2) == Some("empty"@),
{
    classify(parse_with_adblock(rule))
}

/// Whether a rule's scriptlet or redirect resource resolves (as the resource check
/// reports it).
#[derive(Clone, Copy, PartialEq, Eq, Debug, Structural)]
pub enum ResourceStatus {
    /// The rule needs no resource.
    NotApplicable,
    /// The resource resolves.
    Resolved,
    /// The resource is not in the resource set.
    Missing,
    /// The resource needs a permission that the rule does not have.
    RequiresPermission,
}

/// Whether a rule is supported, with the reason when it is not: supported exactly
/// when adblock-rust accepts the rule and any resource it names resolves.
pub open spec fn support_verdict(
    parsed: bool,
    parse_error: Option<Seq<char>>,
    status: ResourceStatus,
) -> (bool, Option<Seq<char>>) {
    if !parsed {
        (false, parse_error)
    } else {
        match status {
            ResourceStatus::NotApplicable | ResourceStatus::Resolved => (true, None),
            ResourceStatus::Missing => (false, Some("resource missing"@)),
            ResourceStatus::RequiresPermission => (false, Some("resource requires permission"@)),
        }
    }
}

/// Whether a rule is supported, and why not: a rule that did not parse is unsupported
/// for its parse error; a parsed one is unsupported when the resource check on it
/// (`status`, read only when the rule parsed) finds its resource missing or
/// restricted.
pub fn support(parsed: &Option<ParsedFilter>, parse_error: Option<String>, status: ResourceStatus) -> (r: (
    bool,
    Option<String>,
))
    ensures
        (r.0, opt_string_view(r.1)) == support_verdict(parsed is Some, opt_string_view(parse_error), status),
{
    if parsed.is_none() {
        return (false, parse_error);
    }
    match status {
        ResourceStatus::NotApplicable | ResourceStatus::Resolved => (true, None),
        ResourceStatus::Missing => (false, Some(String::from_str("resource missing"))),
        ResourceStatus::RequiresPermission => (
            false,
            Some(String::from_str("resource requires permission")),
        ),
    }
}

} // verus!
