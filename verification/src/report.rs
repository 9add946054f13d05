//! One report per matched rule, and the small pieces the printed reports are made of.
use vstd::prelude::*;
use vstd::string::StringExecFns;

use crate::filter::{opt_str_view, opt_string_view, support, support_verdict, ResourceStatus};
use crate::sources::strings_view;
use crate::text::{chars_of, push_char};
use adblock::lists::ParsedFilter;

verus! {

broadcast use vstd::string::group_string_axioms;

/// How a rule relates to the domain set.
#[derive(Clone, Copy, PartialEq, Eq, Debug, Structural)]
pub enum Relation {
    /// The rule blocks a request to one of the domains.
    Target,
    /// The rule applies while browsing one of the domains.
    Scope,
}

/// What the tool found out about one rule.
pub struct RuleReport {
    pub rule: String,
    pub relations: Vec<Relation>,
    pub supported: bool,
    pub filter_type: Option<&'static str>,
    pub reason: Option<String>,
}

/// A [`RuleReport`] with its strings taken by their views.
pub struct ReportView {
    pub rule: Seq<char>,
    pub relations: Seq<Relation>,
    pub supported: bool,
    pub filter_type: Option<Seq<char>>,
    pub reason: Option<Seq<char>>,
}

impl View for RuleReport {
    type V = ReportView;

    open spec fn view(&self) -> ReportView {
        ReportView {
            rule: self.rule@,
            relations: self.relations@,
            supported: self.supported,
            filter_type: opt_str_view(self.filter_type),
            reason: opt_string_view(self.reason),
        }
    }
}

/// The reports of `rs`, each taken by its view.
pub open spec fn reports_view(rs: Seq<RuleReport>) -> Seq<ReportView> {
    rs.map_values(|r: RuleReport| r@)
}

/// `parts` joined with `sep` between each two.
pub open spec fn join(parts: Seq<Seq<char>>, sep: Seq<char>) -> Seq<char>
    decreases parts.len(),
{
    if parts.len() == 0 {
        Seq::<char>::empty()
    } else if parts.len() == 1 {
        parts[0]
    } else {
        join(parts.drop_last(), sep) + sep + parts.last()
    }
}

/// The name a relation is shown by.
pub open spec fn relation_name(rel: Relation) -> Seq<char> {
    match rel {
        Relation::Target => "target"@,
        Relation::Scope => "scope"@,
    }
}

/// The relations' names joined with `+`.
pub open spec fn tags_text(rels: Seq<Relation>) -> Seq<char> {
    join(rels.map_values(|r: Relation| relation_name(r)), "+"@)
}

/// `[tag+tag] `, or nothing when there are no relations.
pub open spec fn tag_prefix_text(rels: Seq<Relation>) -> Seq<char> {
    if rels.len() == 0 {
        Seq::<char>::empty()
    } else {
        "["@ + tags_text(rels) + "] "@
    }
}

/// `s` with each `|` escaped as `\|`.
pub open spec fn escape_pipes(s: Seq<char>) -> Seq<char>
    decreases s.len(),
{
    if s.len() == 0 {
        Seq::<char>::empty()
    } else if s.last() == '|' {
        escape_pipes(s.drop_last()) + seq!['\\', '|']
    } else {
        escape_pipes(s.drop_last()).push(s.last())
    }
}

/// `s` as inline markdown code, pipes escaped.
pub open spec fn code_text(s: Seq<char>) -> Seq<char> {
    "`"@ + escape_pipes(s) + "`"@
}

/// The decimal digit `d`.
pub open spec fn digit(d: nat) -> char {
    if d == 0 {
        '0'
    } else if d == 1 {
        '1'
    } else if d == 2 {
        '2'
    } else if d == 3 {
        '3'
    } else if d == 4 {
        '4'
    } else if d == 5 {
        '5'
    } else if d == 6 {
        '6'
    } else if d == 7 {
        '7'
    } else if d == 8 {
        '8'
    } else {
        '9'
    }
}

/// `n` in decimal.
pub open spec fn decimal(n: nat) -> Seq<char>
    decreases n,
{
    if n < 10 {
        seq![digit(n)]
    } else {
        decimal(n / 10).push(digit(n % 10))
    }
}

/// `n` in decimal.
pub fn decimal_string(n: usize) -> (s: String)
    ensures
        s@ == decimal(n as nat),
    decreases n,
{
    let d = n % 10;
    let c = if d == 0 {
        '0'
    } else if d == 1 {
        '1'
    } else if d == 2 {
        '2'
    } else if d == 3 {
        '3'
    } else if d == 4 {
        '4'
    } else if d == 5 {
        '5'
    } else if d == 6 {
        '6'
    } else if d == 7 {
        '7'
    } else if d == 8 {
        '8'
    } else {
        '9'
    };
    if n < 10 {
        let mut s = String::new();
        push_char(&mut s, c);
        s
    } else {
        let mut s = decimal_string(n / 10);
        push_char(&mut s, c);
        s
    }
}

/// `parts` joined with `sep` between each two.
pub fn join_strings(parts: &Vec<String>, sep: &str) -> (s: String)
    ensures
        s@ == join(strings_view(parts@), sep@),
{
    let mut s = String::new();
    let mut i: usize = 0;
    while i < parts.len()
        invariant
            i <= parts.len(),
            s@ == join(strings_view(parts@.take(i as int)), sep@),
        decreases parts.len() - i,
    {
        let ghost before = strings_view(parts@.take(i as int));
        assert(strings_view(parts@.take(i + 1)) == before.push(parts@[i as int]@));
        assert(before.push(parts@[i as int]@).drop_last() == before);
        if i > 0 {
            s.append(sep);
        }
        s.append(parts[i].as_str());
        i += 1;
    }
    assert(parts@.take(i as int) == parts@);
    s
}

/// The name a relation is shown by.
pub fn relation_str(rel: Relation) -> (s: &'static str)
    ensures
        s@ == relation_name(rel),
{
    match rel {
        Relation::Target => "target",
        Relation::Scope => "scope",
    }
}

/// The relations of a report joined with `+` (e.g. `target+scope`).
pub fn tags(r: &RuleReport) -> (s: String)
    ensures
        s@ == tags_text(r.relations@),
{
    let mut names: Vec<String> = Vec::new();
    let mut i: usize = 0;
    while i < r.relations.len()
        invariant
            i <= r.relations.len(),
            strings_view(names@) == r.relations@.take(i as int).map_values(|x: Relation| relation_name(x)),
        decreases r.relations.len() - i,
    {
        let ghost before = strings_view(names@);
        names.push(String::from_str(relation_str(r.relations[i])));
        assert(strings_view(names@) =~= before.push(relation_name(r.relations@[i as int])));
        assert(r.relations@.take(i + 1) == r.relations@.take(i as int).push(r.relations@[i as int]));
        assert(strings_view(names@) =~= r.relations@.take(i + 1).map_values(|x: Relation| relation_name(x)));
        i += 1;
    }
    assert(r.relations@.take(i as int) == r.relations@);
    join_strings(&names, "+")
}

/// A `[tag+tag] ` prefix, or empty when the rule has no domain relations (match-all mode).
pub fn tag_prefix(r: &RuleReport) -> (s: String)
    ensures
        s@ == tag_prefix_text(r.relations@),
{
    if r.relations.len() == 0 {
        String::new()
    } else {
        let mut s = String::from_str("[");
        s.append(tags(r).as_str());
        s.append("] ");
        s
    }
}

/// `s` with each `|` escaped, for a markdown table cell.
pub fn md_text(s: &str) -> (t: String)
    ensures
        t@ == escape_pipes(s@),
{
    let v = chars_of(s);
    let mut t = String::new();
    let mut i: usize = 0;
    while i < v.len()
        invariant
            i <= v.len(),
            t@ == escape_pipes(v@.take(i as int)),
        decreases v.len() - i,
    {
        assert(v@.take(i + 1).drop_last() == v@.take(i as int));
        if v[i] == '|' {
            push_char(&mut t, '\\');
            push_char(&mut t, '|');
            assert(t@ =~= escape_pipes(v@.take(i as int)) + seq!['\\', '|']);
        } else {
            push_char(&mut t, v[i]);
        }
        i += 1;
    }
    assert(v@.take(i as int) == v@);
    t
}

/// `s` as inline markdown code, with each `|` escaped.
pub fn md_code(s: &str) -> (t: String)
    ensures
        t@ == code_text(s@),
{
    let mut t = String::from_str("`");
    t.append(md_text(s).as_str());
    t.append("`");
    t
}

/// The report for one rule, or none when a domain set is in use and the rule relates
/// to none of its domains. `relations` is `None` when every rule is checked, else
/// the rule's relations to the domain set; `status` is the resource check's verdict
/// on the parsed rule.
pub open spec fn report_of(
    rule: Seq<char>,
    parsed: bool,
    filter_type: Option<Seq<char>>,
    parse_error: Option<Seq<char>>,
    relations: Option<Seq<Relation>>,
    status: ResourceStatus,
) -> Option<ReportView> {
    if relations matches Some(rels) && rels.len() == 0 {
        None
    } else {
        let verdict = support_verdict(parsed, parse_error, status);
        Some(
            ReportView {
                rule,
                relations: match relations {
                    Some(rels) => rels,
                    None => Seq::<Relation>::empty(),
                },
                supported: verdict.0,
                filter_type,
                reason: verdict.1,
            },
        )
    }
}

/// Builds the report for one rule from its parse, its relations to the domain set
/// (`None` when no domain set is in use) and the resource check's verdict; none when
/// the rule relates to no domain of the set.
pub fn rule_report(
    rule: String,
    parsed: &Option<ParsedFilter>,
    filter_type: Option<&'static str>,
    parse_error: Option<String>,
    relations: Option<Vec<Relation>>,
    status: ResourceStatus,
) -> (r: Option<RuleReport>)
    ensures
        match r {
            Some(rep) => Some(rep@),
            None => None,
        } == report_of(
            rule@,
            parsed is Some,
            opt_str_view(filter_type),
            opt_string_view(parse_error),
            match relations {
                Some(v) => Some(v@),
                None => None,
            },
            status,
        ),
        relations matches Some(v) && v@.len() == 0 ==> r is None,
        relations is Some && relations.unwrap()@.len() > 0 ==> r is Some && r.unwrap().relations@
            == relations.unwrap()@,
        relations is None ==> r is Some && r.unwrap().relations@.len() == 0,
        r matches Some(rep) ==> rep.rule@ == rule@ && opt_str_view(rep.filter_type) == opt_str_view(filter_type),
{
    let rels = match relations {
        Some(v) => {
            if v.len() == 0 {
                return None;
            }
            v
        },
        None => Vec::new(),
    };
    let (supported, reason) = support(parsed, parse_error, status);
    Some(RuleReport { rule, relations: rels, supported, filter_type, reason })
}

} // verus!
