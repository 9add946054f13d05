//! The markdown report, as the lines it prints. Its text depends only on the
//! reports, the domain set, the source and the tool's name and version.
use vstd::prelude::*;
use vstd::string::StringExecFns;

use crate::render::{
    count_related, count_supported, counted, lemma_count_supported_bound, listing_of, or_unknown, push_string,
    push_text, related_count, supported_count, supported_order, unsupported_order,
};
use crate::report::{
    code_text, decimal, decimal_string, escape_pipes, join, join_strings, md_code, md_text, reports_view, tags,
    tags_text, Relation, ReportView, RuleReport,
};
use crate::sources::strings_view;

verus! {

broadcast use vstd::string::group_string_axioms;

/// The adblock-rust version the tool is built against.
pub const ADBLOCK_RUST_VERSION: &'static str = "0.12.x";

/// A markdown table row of `cells`.
pub open spec fn table_row(cells: Seq<Seq<char>>) -> Seq<char> {
    "| "@ + join(cells, " | "@) + " |"@
}

/// A markdown table: the header row, the separator row, then the rows.
pub open spec fn table(headers: Seq<Seq<char>>, rows: Seq<Seq<Seq<char>>>) -> Seq<Seq<char>> {
    seq![
        table_row(headers),
        "|"@ + join(Seq::new(headers.len(), |i: int| "---"@), "|"@) + "|"@,
    ] + rows.map_values(|row: Seq<Seq<char>>| table_row(row))
}

/// The column headers of a rule table: the tags column only for a domain set.
pub open spec fn table_headers(domain_filtered: bool, supported_style: bool) -> Seq<Seq<char>> {
    (if domain_filtered {
        seq!["Tags"@]
    } else {
        Seq::<Seq<char>>::empty()
    }) + (if supported_style {
        seq!["Type"@, "Rule"@]
    } else {
        seq!["Reason"@, "Rule"@]
    })
}

/// The cells of a rule's table row.
pub open spec fn table_cells(r: ReportView, domain_filtered: bool, supported_style: bool) -> Seq<Seq<char>> {
    (if domain_filtered {
        seq![tags_text(r.relations)]
    } else {
        Seq::<Seq<char>>::empty()
    }) + (if supported_style {
        seq![or_unknown(r.filter_type), code_text(r.rule)]
    } else {
        seq![escape_pipes(or_unknown(r.reason)), code_text(r.rule)]
    })
}

/// The table of the reports at `order`.
pub open spec fn rule_table(rs: Seq<ReportView>, order: Seq<usize>, domain_filtered: bool, supported_style: bool) -> Seq<
    Seq<char>,
> {
    table(
        table_headers(domain_filtered, supported_style),
        order.map_values(|i: usize| table_cells(rs[i as int], domain_filtered, supported_style)),
    )
}

/// The domain set as the report names it.
pub open spec fn domains_label(domains: Option<Seq<Seq<char>>>) -> Seq<char> {
    match domains {
        Some(d) => join(d, ", "@),
        None => "all (no domain filter)"@,
    }
}

/// The markdown report: a provenance table, a summary line, the unsupported rules
/// by reason and rule, and the supported rules by filter type and rule.
pub open spec fn markdown_report(
    rs: Seq<ReportView>,
    domains: Option<Seq<Seq<char>>>,
    source: Seq<char>,
    tool: Seq<char>,
    version: Seq<char>,
) -> Seq<Seq<char>> {
    let df = domains is Some;
    let n = rs.len();
    let sup = count_supported(rs);
    let uns = (n - sup) as nat;
    let summary = if df {
        "**"@ + decimal(n) + " matching rules** - "@ + decimal(sup) + " supported, "@ + decimal(uns)
            + " unsupported (target: "@ + decimal(count_related(rs, Relation::Target)) + ", scope: "@
            + decimal(count_related(rs, Relation::Scope)) + ")."@
    } else {
        "**"@ + decimal(n) + " rules checked** - "@ + decimal(sup) + " supported, "@ + decimal(uns)
            + " unsupported."@
    };
    let uo = unsupported_order(rs);
    let so = supported_order(rs);
    seq![
        "# adblock-rust filter compatibility"@,
        ""@,
        "| | |"@,
        "|---|---|"@,
        "| Source | "@ + escape_pipes(source) + " |"@,
        "| Domains | "@ + escape_pipes(domains_label(domains)) + " |"@,
        "| adblock-rust | "@ + ADBLOCK_RUST_VERSION@ + " |"@,
        "| Tool | "@ + tool + " v"@ + version + " |"@,
        ""@,
        summary,
        ""@,
        "## Unsupported ("@ + decimal(uns) + ")"@,
        ""@,
    ] + (if uo.len() == 0 {
        seq!["_None._"@, ""@]
    } else {
        rule_table(rs, uo, df, false) + seq![""@]
    }) + seq!["## Supported ("@ + decimal(sup) + ")"@, ""@] + (if so.len() == 0 {
        seq!["_None._"@]
    } else {
        rule_table(rs, so, df, true)
    })
}

/// A markdown table row of `cells`.
pub fn table_row_line(cells: &Vec<String>) -> (s: String)
    ensures
        s@ == table_row(strings_view(cells@)),
{
    let mut s = String::from_str("| ");
    s.append(join_strings(cells, " | ").as_str());
    s.append(" |");
    s
}

/// The cells of a rule's table row.
fn row_cells(r: &RuleReport, domain_filtered: bool, supported_style: bool) -> (cells: Vec<String>)
    ensures
        strings_view(cells@) == table_cells(r@, domain_filtered, supported_style),
{
    let mut cells: Vec<String> = Vec::new();
    if domain_filtered {
        push_string(&mut cells, tags(r));
    }
    if supported_style {
        match r.filter_type {
            Some(t) => push_text(&mut cells, t),
            None => push_text(&mut cells, "?"),
        }
    } else {
        match &r.reason {
            Some(t) => push_string(&mut cells, md_text(t.as_str())),
            None => push_string(&mut cells, md_text("?")),
        }
    }
    push_string(&mut cells, md_code(r.rule.as_str()));
    assert(strings_view(cells@) =~= table_cells(r@, domain_filtered, supported_style));
    cells
}

/// Appends to `lines` the table of the reports at `order`.
pub fn push_rule_table(
    lines: &mut Vec<String>,
    reports: &Vec<RuleReport>,
    order: &Vec<usize>,
    domain_filtered: bool,
    supported_style: bool,
)
    requires
        forall|k: int| 0 <= k < order.len() ==> order@[k] < reports.len(),
    ensures
        strings_view(final(lines)@) == strings_view(old(lines)@) + rule_table(
            reports_view(reports@),
            order@,
            domain_filtered,
            supported_style,
        ),
{
    let ghost rv = reports_view(reports@);
    let ghost base = strings_view(lines@);
    let mut headers: Vec<String> = Vec::new();
    if domain_filtered {
        push_text(&mut headers, "Tags");
    }
    if supported_style {
        push_text(&mut headers, "Type");
    } else {
        push_text(&mut headers, "Reason");
    }
    push_text(&mut headers, "Rule");
    assert(strings_view(headers@) =~= table_headers(domain_filtered, supported_style));
    push_string(lines, table_row_line(&headers));
    let mut dashes: Vec<String> = Vec::new();
    let mut h: usize = 0;
    while h < headers.len()
        invariant
            h <= headers.len(),
            strings_view(dashes@) == Seq::new(h as nat, |i: int| "---"@),
        decreases headers.len() - h,
    {
        push_text(&mut dashes, "---");
        assert(strings_view(dashes@) =~= Seq::new((h + 1) as nat, |i: int| "---"@));
        h += 1;
    }
    let mut sep = String::from_str("|");
    sep.append(join_strings(&dashes, "|").as_str());
    sep.append("|");
    push_string(lines, sep);
    let ghost top = strings_view(lines@);
    let ghost cells_of = |i: usize| table_cells(rv[i as int], domain_filtered, supported_style);
    let mut k: usize = 0;
    while k < order.len()
        invariant
            k <= order.len(),
            rv == reports_view(reports@),
            forall|m: int| 0 <= m < order.len() ==> order@[m] < reports.len(),
            strings_view(lines@) == top + order@.take(k as int).map_values(cells_of).map_values(
                |row: Seq<Seq<char>>| table_row(row),
            ),
            cells_of == (|i: usize| table_cells(rv[i as int], domain_filtered, supported_style)),
        decreases order.len() - k,
    {
        let ghost before = strings_view(lines@);
        let cells = row_cells(&reports[order[k]], domain_filtered, supported_style);
        let line = table_row_line(&cells);
        push_string(lines, line);
        assert(order@.take(k + 1) == order@.take(k as int).push(order@[k as int]));
        assert(order@.take(k + 1).map_values(cells_of).map_values(|row: Seq<Seq<char>>| table_row(row))
            =~= order@.take(k as int).map_values(cells_of).map_values(|row: Seq<Seq<char>>| table_row(row)).push(
            table_row(cells_of(order@[k as int])),
        ));
        k += 1;
    }
    assert(order@.take(k as int) == order@);
    assert(order@.map_values(cells_of) =~= order@.map_values(
        |i: usize| table_cells(rv[i as int], domain_filtered, supported_style),
    ));
    assert(strings_view(lines@) =~= base + rule_table(rv, order@, domain_filtered, supported_style));
}

/// The lines of the markdown report on `reports`, read from `source` with `domains`
/// as the domain set (`None`: every rule was checked), made by tool `tool` at
/// `version`.
#[verifier::rlimit(40)]
pub fn markdown_report_lines(
    reports: &Vec<RuleReport>,
    domains: &Option<Vec<String>>,
    source: &str,
    tool: &str,
    version: &str,
) -> (lines: Vec<String>)
    ensures
        strings_view(lines@) == markdown_report(
            reports_view(reports@),
            match domains {
                Some(d) => Some(strings_view(d@)),
                None => None,
            },
            source@,
            tool@,
            version@,
        ),
        lines@.len() > 11,
        domains is None ==> lines@[9]@ == "**"@ + decimal(reports.len() as nat) + " rules checked** - "@ + decimal(
            supported_order(reports_view(reports@)).len(),
        ) + " supported, "@ + decimal(unsupported_order(reports_view(reports@)).len()) + " unsupported."@,
        lines@[11]@ == "## Unsupported ("@ + decimal(unsupported_order(reports_view(reports@)).len()) + ")"@,
        supported_order(reports_view(reports@)).len() + unsupported_order(reports_view(reports@)).len()
            == reports.len(),
{
    let ghost rv = reports_view(reports@);
    let ghost dv = match domains {
        Some(d) => Some(strings_view(d@)),
        None => None,
    };
    let domain_filtered = domains.is_some();
    let supported = supported_count(reports);
    proof {
        lemma_count_supported_bound(rv);
    }
    let unsupported = reports.len() - supported;
    let mut lines: Vec<String> = Vec::new();
    push_text(&mut lines, "# adblock-rust filter compatibility");
    push_text(&mut lines, "");
    push_text(&mut lines, "| | |");
    push_text(&mut lines, "|---|---|");
    let mut s = String::from_str("| Source | ");
    s.append(md_text(source).as_str());
    s.append(" |");
    push_string(&mut lines, s);
    let label = match domains {
        Some(d) => join_strings(d, ", "),
        None => String::from_str("all (no domain filter)"),
    };
    assert(label@ == domains_label(dv));
    let mut s = String::from_str("| Domains | ");
    s.append(md_text(label.as_str()).as_str());
    s.append(" |");
    push_string(&mut lines, s);
    let mut s = String::from_str("| adblock-rust | ");
    s.append(ADBLOCK_RUST_VERSION);
    s.append(" |");
    push_string(&mut lines, s);
    let mut s = String::from_str("| Tool | ");
    s.append(tool);
    s.append(" v");
    s.append(version);
    s.append(" |");
    push_string(&mut lines, s);
    push_text(&mut lines, "");
    let mut s = counted("**", reports.len());
    if domain_filtered {
        s.append(" matching rules** - ");
    } else {
        s.append(" rules checked** - ");
    }
    s.append(decimal_string(supported).as_str());
    s.append(" supported, ");
    s.append(decimal_string(unsupported).as_str());
    if domain_filtered {
        let targets = related_count(reports, Relation::Target);
        let scopes = related_count(reports, Relation::Scope);
        s.append(" unsupported (target: ");
        s.append(decimal_string(targets).as_str());
        s.append(", scope: ");
        s.append(decimal_string(scopes).as_str());
        s.append(").");
    } else {
        s.append(" unsupported.");
    }
    push_string(&mut lines, s);
    push_text(&mut lines, "");
    let mut s = counted("## Unsupported (", unsupported);
    s.append(")");
    push_string(&mut lines, s);
    push_text(&mut lines, "");
    let ghost head = strings_view(lines@);
    let uo = listing_of(reports, false, false);
    assert(uo@ == unsupported_order(rv));
    assert forall|k: int| 0 <= k < uo.len() implies uo@[k] < reports.len() by {
        assert(uo@.contains(uo@[k]));
    }
    if uo.len() == 0 {
        push_text(&mut lines, "_None._");
        push_text(&mut lines, "");
    } else {
        push_rule_table(&mut lines, reports, &uo, domain_filtered, false);
        push_text(&mut lines, "");
    }
    let ghost after_unsupported = strings_view(lines@);
    assert(after_unsupported == head + (if uo@.len() == 0 {
        seq!["_None._"@, ""@]
    } else {
        rule_table(rv, uo@, domain_filtered, false) + seq![""@]
    }));
    let mut s = counted("## Supported (", supported);
    s.append(")");
    push_string(&mut lines, s);
    push_text(&mut lines, "");
    let ghost mid = strings_view(lines@);
    let so = listing_of(reports, true, true);
    assert(so@ == supported_order(rv));
    assert forall|k: int| 0 <= k < so.len() implies so@[k] < reports.len() by {
        assert(so@.contains(so@[k]));
    }
    if so.len() == 0 {
        push_text(&mut lines, "_None._");
    } else {
        push_rule_table(&mut lines, reports, &so, domain_filtered, true);
    }
    let ghost tail = strings_view(lines@);
    assert(tail == mid + (if so@.len() == 0 {
        seq!["_None._"@]
    } else {
        rule_table(rv, so@, domain_filtered, true)
    }));
    assert(head.len() == 13);
    assert(strings_view(lines@) =~= markdown_report(rv, dv, source@, tool@, version@));
    proof {
        crate::output_laws::law_markdown_summary_counts(rv, dv, source@, tool@, version@);
        assert(strings_view(lines@)[9] == lines@[9]@);
        assert(strings_view(lines@)[11] == lines@[11]@);
    }
    lines
}

} // verus!
