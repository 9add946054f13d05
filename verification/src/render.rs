//! The text and markdown reports, as the lines they print.
use vstd::prelude::*;
use vstd::string::StringExecFns;

use crate::filter::{opt_str_view, opt_string_view};
use crate::order::{in_order, in_range, keys_view, lemma_in_order_unique, sort_positions, KeyView, SortKey};
use crate::report::{
    decimal, decimal_string, reports_view, tag_prefix, tag_prefix_text, Relation, ReportView, RuleReport,
};
use crate::sources::strings_view;
use crate::text::chars_of;

verus! {

broadcast use vstd::string::group_string_axioms;

/// How many of the reports are of supported rules.
pub open spec fn count_supported(rs: Seq<ReportView>) -> nat
    decreases rs.len(),
{
    if rs.len() == 0 {
        0
    } else {
        count_supported(rs.drop_last()) + if rs.last().supported {
            1nat
        } else {
            0nat
        }
    }
}

/// How many of the reports' rules have relation `rel`.
pub open spec fn count_related(rs: Seq<ReportView>, rel: Relation) -> nat
    decreases rs.len(),
{
    if rs.len() == 0 {
        0
    } else {
        count_related(rs.drop_last(), rel) + if rs.last().relations.contains(rel) {
            1nat
        } else {
            0nat
        }
    }
}

/// The sort key of an unsupported rule: its reason, then the rule.
pub open spec fn reason_keys(rs: Seq<ReportView>) -> Seq<KeyView> {
    rs.map_values(|r: ReportView| (r.reason, r.rule))
}

/// The sort key of a supported rule: its filter type, then the rule.
pub open spec fn type_keys(rs: Seq<ReportView>) -> Seq<KeyView> {
    rs.map_values(|r: ReportView| (r.filter_type, r.rule))
}

/// `s` lists, in key order (ties in report order), exactly the positions of the
/// reports whose `supported` is `want`.
pub open spec fn is_listing(keys: Seq<KeyView>, rs: Seq<ReportView>, want: bool, s: Seq<usize>) -> bool {
    &&& in_order(keys, s)
    &&& forall|x: usize| s.contains(x) <==> (x < rs.len() && rs[x as int].supported == want)
}

/// The positions of the reports whose `supported` is `want`, in key order, ties in
/// report order (there is exactly one such listing).
pub open spec fn listing(keys: Seq<KeyView>, rs: Seq<ReportView>, want: bool) -> Seq<usize> {
    choose|s: Seq<usize>| is_listing(keys, rs, want, s)
}

/// The unsupported rules, by reason and then rule.
pub open spec fn unsupported_order(rs: Seq<ReportView>) -> Seq<usize> {
    listing(reason_keys(rs), rs, false)
}

/// The supported rules, by filter type and then rule.
pub open spec fn supported_order(rs: Seq<ReportView>) -> Seq<usize> {
    listing(type_keys(rs), rs, true)
}

/// The positions of the reports whose `supported` is `want`, in report order.
pub open spec fn positions_where(rs: Seq<ReportView>, want: bool) -> Seq<usize>
    decreases rs.len(),
{
    if rs.len() == 0 {
        Seq::<usize>::empty()
    } else {
        let p = positions_where(rs.drop_last(), want);
        if rs.last().supported == want {
            p.push((rs.len() - 1) as usize)
        } else {
            p
        }
    }
}

/// A text, or `?` when there is none.
pub open spec fn or_unknown(o: Option<Seq<char>>) -> Seq<char> {
    match o {
        Some(x) => x,
        None => "?"@,
    }
}

/// How the text report lists an unsupported rule.
pub open spec fn unsupported_line(r: ReportView) -> Seq<char> {
    tag_prefix_text(r.relations) + "("@ + or_unknown(r.reason) + ") "@ + r.rule
}

/// How the text report lists a supported rule.
pub open spec fn supported_line(r: ReportView) -> Seq<char> {
    tag_prefix_text(r.relations) + "["@ + or_unknown(r.filter_type) + "] "@ + r.rule
}

/// The lines listing the reports at `order`, unsupported style or supported style.
pub open spec fn rule_lines(rs: Seq<ReportView>, order: Seq<usize>, supported_style: bool) -> Seq<Seq<char>> {
    order.map_values(
        |i: usize|
            if supported_style {
                supported_line(rs[i as int])
            } else {
                unsupported_line(rs[i as int])
            },
    )
}

/// The text report: the counts, then the unsupported rules by reason and rule, then
/// (when asked for) the supported rules in report order.
pub open spec fn text_report(rs: Seq<ReportView>, show_supported: bool, domain_filtered: bool) -> Seq<Seq<char>> {
    let n = rs.len();
    let sup = count_supported(rs);
    let head = if domain_filtered {
        "Matching rules: "@ + decimal(n) + "  (target: "@ + decimal(count_related(rs, Relation::Target))
            + ", scope: "@ + decimal(count_related(rs, Relation::Scope)) + ")"@
    } else {
        "Rules checked:  "@ + decimal(n)
    };
    let order = unsupported_order(rs);
    seq![head, "Supported:      "@ + decimal(sup), "Unsupported:    "@ + decimal((n - sup) as nat)] + (
    if order.len() > 0 {
        seq![""@, "=== UNSUPPORTED RULES ==="@] + rule_lines(rs, order, false)
    } else {
        Seq::<Seq<char>>::empty()
    }) + (if show_supported {
        seq![""@, "=== SUPPORTED RULES ==="@] + rule_lines(rs, positions_where(rs, true), true)
    } else {
        Seq::<Seq<char>>::empty()
    })
}

/// There are no more supported reports than reports.
pub proof fn lemma_count_supported_bound(rs: Seq<ReportView>)
    ensures
        count_supported(rs) <= rs.len(),
    decreases rs.len(),
{
    if rs.len() > 0 {
        lemma_count_supported_bound(rs.drop_last());
    }
}

/// How many reports are of supported rules.
pub fn supported_count(reports: &Vec<RuleReport>) -> (n: usize)
    ensures
        n == count_supported(reports_view(reports@)),
{
    let ghost rv = reports_view(reports@);
    let mut n: usize = 0;
    let mut i: usize = 0;
    while i < reports.len()
        invariant
            i <= reports.len(),
            rv == reports_view(reports@),
            n == count_supported(rv.take(i as int)),
            n <= i,
        decreases reports.len() - i,
    {
        assert(rv.take(i + 1).drop_last() == rv.take(i as int));
        if reports[i].supported {
            n += 1;
        }
        i += 1;
    }
    assert(rv.take(i as int) == rv);
    n
}

/// Whether `rels` holds `rel`.
pub fn has_relation(rels: &Vec<Relation>, rel: Relation) -> (b: bool)
    ensures
        b == rels@.contains(rel),
{
    let mut i: usize = 0;
    while i < rels.len()
        invariant
            i <= rels.len(),
            forall|k: int| 0 <= k < i ==> rels@[k] != rel,
        decreases rels.len() - i,
    {
        if rels[i] == rel {
            assert(rels@[i as int] == rel);
            return true;
        }
        i += 1;
    }
    false
}

/// How many reports' rules have relation `rel`.
pub fn related_count(reports: &Vec<RuleReport>, rel: Relation) -> (n: usize)
    ensures
        n == count_related(reports_view(reports@), rel),
{
    let ghost rv = reports_view(reports@);
    let mut n: usize = 0;
    let mut i: usize = 0;
    while i < reports.len()
        invariant
            i <= reports.len(),
            rv == reports_view(reports@),
            n == count_related(rv.take(i as int), rel),
            n <= i,
        decreases reports.len() - i,
    {
        assert(rv.take(i + 1).drop_last() == rv.take(i as int));
        if has_relation(&reports[i].relations, rel) {
            n += 1;
        }
        i += 1;
    }
    assert(rv.take(i as int) == rv);
    n
}

/// The positions of the reports whose `supported` is `want`, in report order.
pub fn positions_of(reports: &Vec<RuleReport>, want: bool) -> (p: Vec<usize>)
    ensures
        p@ == positions_where(reports_view(reports@), want),
{
    let ghost rv = reports_view(reports@);
    let mut p: Vec<usize> = Vec::new();
    let mut i: usize = 0;
    while i < reports.len()
        invariant
            i <= reports.len(),
            rv == reports_view(reports@),
            p@ == positions_where(rv.take(i as int), want),
        decreases reports.len() - i,
    {
        assert(rv.take(i + 1).drop_last() == rv.take(i as int));
        if reports[i].supported == want {
            p.push(i);
        }
        i += 1;
    }
    assert(rv.take(i as int) == rv);
    p
}

/// The positions of the reports whose `supported` is `want`, sorted by filter type
/// (`by_type`) or by reason, then by rule; ties in report order.
pub fn listing_of(reports: &Vec<RuleReport>, by_type: bool, want: bool) -> (s: Vec<usize>)
    ensures
        s@ == listing(
            if by_type {
                type_keys(reports_view(reports@))
            } else {
                reason_keys(reports_view(reports@))
            },
            reports_view(reports@),
            want,
        ),
        is_listing(
            if by_type {
                type_keys(reports_view(reports@))
            } else {
                reason_keys(reports_view(reports@))
            },
            reports_view(reports@),
            want,
            s@,
        ),
{
    let ghost rv = reports_view(reports@);
    let ghost kv = if by_type {
        type_keys(rv)
    } else {
        reason_keys(rv)
    };
    let mut keys: Vec<SortKey> = Vec::new();
    let mut cand: Vec<usize> = Vec::new();
    let mut i: usize = 0;
    while i < reports.len()
        invariant
            i <= reports.len(),
            rv == reports_view(reports@),
            kv == (if by_type {
                type_keys(rv)
            } else {
                reason_keys(rv)
            }),
            keys_view(keys@) == kv.take(i as int),
            forall|a: int, b: int| 0 <= a < b < cand.len() ==> cand@[a] < cand@[b],
            forall|a: int| 0 <= a < cand.len() ==> cand@[a] < i,
            forall|x: usize| cand@.contains(x) <==> (x < i && rv[x as int].supported == want),
        decreases reports.len() - i,
    {
        let r = &reports[i];
        let first = if by_type {
            match r.filter_type {
                Some(t) => Some(chars_of(t)),
                None => None,
            }
        } else {
            match &r.reason {
                Some(t) => Some(chars_of(t.as_str())),
                None => None,
            }
        };
        let ghost old_keys = keys_view(keys@);
        let ghost old_cand = cand@;
        keys.push(SortKey { first, second: chars_of(r.rule.as_str()) });
        assert(keys_view(keys@) =~= old_keys.push(kv[i as int]));
        assert(kv.take(i + 1) == kv.take(i as int).push(kv[i as int]));
        if r.supported == want {
            cand.push(i);
        }
        assert forall|x: usize| cand@.contains(x) <==> (x < i + 1 && rv[x as int].supported == want) by {
            if cand@.contains(x) && x != i {
                let k = choose|k: int| 0 <= k < cand@.len() && cand@[k] == x;
                assert(old_cand[k] == x);
            }
            if old_cand.contains(x) {
                let k = choose|k: int| 0 <= k < old_cand.len() && old_cand[k] == x;
                assert(cand@[k] == x);
            }
            if x == i && rv[x as int].supported == want {
                assert(cand@[cand@.len() - 1] == x);
            }
        }
        i += 1;
    }
    assert(kv.take(i as int) == kv);
    assert(cand@.no_duplicates()) by {
        assert forall|a: int, b: int| 0 <= a < cand.len() && 0 <= b < cand.len() && a != b implies cand@[a] != cand@[b] by {
            if a < b {
                assert(cand@[a] < cand@[b]);
            } else {
                assert(cand@[b] < cand@[a]);
            }
        }
    }
    assert(in_range(kv, cand@));
    let sorted = sort_positions(&keys, cand);
    proof {
        assert(is_listing(kv, rv, want, sorted@));
        let other = listing(kv, rv, want);
        assert(is_listing(kv, rv, want, other));
        lemma_in_order_unique(kv, sorted@, other);
    }
    sorted
}

/// The text report's line for one report.
pub fn rule_line(r: &RuleReport, supported_style: bool) -> (s: String)
    ensures
        s@ == (if supported_style {
            supported_line(r@)
        } else {
            unsupported_line(r@)
        }),
{
    let mut s = tag_prefix(r);
    if supported_style {
        s.append("[");
        match r.filter_type {
            Some(t) => s.append(t),
            None => s.append("?"),
        }
        s.append("] ");
    } else {
        s.append("(");
        match &r.reason {
            Some(t) => s.append(t.as_str()),
            None => s.append("?"),
        }
        s.append(") ");
    }
    s.append(r.rule.as_str());
    s
}

/// Appends to `lines` the lines for the reports at `order`.
fn push_rule_lines(lines: &mut Vec<String>, reports: &Vec<RuleReport>, order: &Vec<usize>, supported_style: bool)
    requires
        forall|k: int| 0 <= k < order.len() ==> order@[k] < reports.len(),
    ensures
        strings_view(final(lines)@) == strings_view(old(lines)@) + rule_lines(
            reports_view(reports@),
            order@,
            supported_style,
        ),
{
    let ghost rv = reports_view(reports@);
    let ghost base = strings_view(lines@);
    let mut k: usize = 0;
    while k < order.len()
        invariant
            k <= order.len(),
            rv == reports_view(reports@),
            forall|m: int| 0 <= m < order.len() ==> order@[m] < reports.len(),
            strings_view(lines@) == base + rule_lines(rv, order@.take(k as int), supported_style),
        decreases order.len() - k,
    {
        let ghost before = strings_view(lines@);
        let line = rule_line(&reports[order[k]], supported_style);
        lines.push(line);
        assert(order@.take(k + 1) == order@.take(k as int).push(order@[k as int]));
        assert(rule_lines(rv, order@.take(k + 1), supported_style) =~= rule_lines(
            rv,
            order@.take(k as int),
            supported_style,
        ).push(line@));
        assert(strings_view(lines@) =~= before.push(line@));
        k += 1;
    }
    assert(order@.take(k as int) == order@);
}

/// Appends `s` to `lines`.
pub fn push_text(lines: &mut Vec<String>, s: &str)
    ensures
        strings_view(final(lines)@) == strings_view(old(lines)@).push(s@),
{
    let ghost before = strings_view(lines@);
    lines.push(String::from_str(s));
    assert(strings_view(lines@) =~= before.push(s@));
}

/// Appends `s` to `lines`.
pub fn push_string(lines: &mut Vec<String>, s: String)
    ensures
        strings_view(final(lines)@) == strings_view(old(lines)@).push(s@),
{
    let ghost before = strings_view(lines@);
    let ghost v = s@;
    lines.push(s);
    assert(strings_view(lines@) =~= before.push(v));
}

/// `prefix` followed by `n` in decimal.
pub fn counted(prefix: &str, n: usize) -> (s: String)
    ensures
        s@ == prefix@ + decimal(n as nat),
{
    let mut s = String::from_str(prefix);
    s.append(decimal_string(n).as_str());
    s
}

/// The lines of the text report: counts, the unsupported rules sorted by reason
/// and rule, and (when `show_supported`) the supported rules in report order.
pub fn text_report_lines(reports: &Vec<RuleReport>, show_supported: bool, domain_filtered: bool) -> (lines: Vec<
    String,
>)
    ensures
        strings_view(lines@) == text_report(reports_view(reports@), show_supported, domain_filtered),
        lines@.len() >= 3,
        !domain_filtered ==> lines@[0]@ == "Rules checked:  "@ + decimal(reports.len() as nat),
        lines@[1]@ == "Supported:      "@ + decimal(supported_order(reports_view(reports@)).len()),
        lines@[2]@ == "Unsupported:    "@ + decimal(unsupported_order(reports_view(reports@)).len()),
        supported_order(reports_view(reports@)).len() + unsupported_order(reports_view(reports@)).len()
            == reports.len(),
{
    let ghost rv = reports_view(reports@);
    let supported = supported_count(reports);
    proof {
        lemma_count_supported_bound(rv);
    }
    let unsupported = reports.len() - supported;
    let mut lines: Vec<String> = Vec::new();
    if domain_filtered {
        let targets = related_count(reports, Relation::Target);
        let scopes = related_count(reports, Relation::Scope);
        let mut s = counted("Matching rules: ", reports.len());
        s.append("  (target: ");
        s.append(decimal_string(targets).as_str());
        s.append(", scope: ");
        s.append(decimal_string(scopes).as_str());
        s.append(")");
        push_string(&mut lines, s);
    } else {
        push_string(&mut lines, counted("Rules checked:  ", reports.len()));
    }
    push_string(&mut lines, counted("Supported:      ", supported));
    push_string(&mut lines, counted("Unsupported:    ", unsupported));
    let ghost head = strings_view(lines@);
    let order = listing_of(reports, false, false);
    assert forall|k: int| 0 <= k < order.len() implies order@[k] < reports.len() by {
        assert(order@.contains(order@[k]));
        assert(rv.len() == reports.len());
    }
    if order.len() > 0 {
        push_text(&mut lines, "");
        push_text(&mut lines, "=== UNSUPPORTED RULES ===");
        push_rule_lines(&mut lines, reports, &order, false);
    }
    let ghost mid = strings_view(lines@);
    if show_supported {
        push_text(&mut lines, "");
        push_text(&mut lines, "=== SUPPORTED RULES ===");
        let positions = positions_of(reports, true);
        proof {
            lemma_positions_in_range(rv, true);
        }
        push_rule_lines(&mut lines, reports, &positions, true);
    }
    assert(strings_view(lines@) =~= text_report(rv, show_supported, domain_filtered));
    proof {
        crate::output_laws::law_text_report_counts(rv, show_supported, domain_filtered);
        assert(strings_view(lines@)[0] == lines@[0]@);
        assert(strings_view(lines@)[1] == lines@[1]@);
        assert(strings_view(lines@)[2] == lines@[2]@);
    }
    lines
}

/// Every position listed by `positions_where` is a position of the reports.
pub proof fn lemma_positions_in_range(rs: Seq<ReportView>, want: bool)
    ensures
        forall|k: int|
            0 <= k < positions_where(rs, want).len() ==> #[trigger] positions_where(rs, want)[k] < rs.len(),
    decreases rs.len(),
{
    if rs.len() > 0 {
        lemma_positions_in_range(rs.drop_last(), want);
        let p = positions_where(rs.drop_last(), want);
        assert forall|k: int| 0 <= k < p.len() implies #[trigger] p[k] < rs.len() by {
            assert(p[k] < rs.drop_last().len());
        }
    }
}

} // verus!
