use adblock_rust_compat_checker::filter::{classify, parse, support, FilterOutcome, ResourceStatus};
use adblock_rust_compat_checker::markdown::{markdown_report_lines, ADBLOCK_RUST_VERSION};
use adblock_rust_compat_checker::render::text_report_lines;
use adblock_rust_compat_checker::report::{
    decimal_string, join_strings, md_code, md_text, rule_report, tag_prefix, tags, Relation, RuleReport,
};
use adblock_rust_compat_checker::rules::{collect_rules, is_filter_line};
use adblock_rust_compat_checker::sources::{list_tokens, resolve_list, EASYLIST_URL, EASYPRIVACY_URL, UBO_URL};
use adblock_rust_compat_checker::text::chars_of;

fn report(rule: &str, relations: Vec<Relation>, supported: bool, filter_type: Option<&'static str>, reason: Option<&str>) -> RuleReport {
    RuleReport {
        rule: rule.to_string(),
        relations,
        supported,
        filter_type,
        reason: reason.map(|r| r.to_string()),
    }
}

#[test]
fn resolve_list_presets_and_urls() {
    assert_eq!(resolve_list("ubo").unwrap(), UBO_URL);
    assert_eq!(resolve_list("easylist").unwrap(), EASYLIST_URL);
    assert_eq!(resolve_list("easyprivacy").unwrap(), EASYPRIVACY_URL);
    assert_eq!(
        resolve_list("https://example.com/list.txt").unwrap(),
        "https://example.com/list.txt"
    );
    assert!(resolve_list("nonsense").is_err());
    // A stray flag captured as a value (e.g. `--list --json`) is rejected.
    assert!(resolve_list("--json").is_err());
}

#[test]
fn list_tokens_split_and_repeat() {
    // comma-separated, repeated, and a mix all expand to individual tokens
    assert_eq!(
        list_tokens(&["ubo,easylist".to_string()]),
        vec!["ubo", "easylist"]
    );
    assert_eq!(
        list_tokens(&["ubo".to_string(), "easylist".to_string()]),
        vec!["ubo", "easylist"]
    );
    assert_eq!(
        list_tokens(&[" ubo , easyprivacy ".to_string(), "easylist".to_string()]),
        vec!["ubo", "easyprivacy", "easylist"]
    );
    // empties and stray commas are dropped
    assert_eq!(list_tokens(&["ubo,,".to_string()]), vec!["ubo"]);
    assert!(list_tokens(&[]).is_empty());
}

#[test]
fn supported_network_rule() {
    let (parsed, ty, err) = parse("||ads.youtube.com^");
    assert!(parsed.is_some());
    assert_eq!(ty, Some("network"));
    assert!(err.is_none());
}

#[test]
fn supported_cosmetic_rule() {
    let (parsed, ty, err) = parse("youtube.com##.ytp-ad-module");
    assert!(parsed.is_some());
    assert_eq!(ty, Some("cosmetic"));
    assert!(err.is_none());
}

#[test]
fn rejected_replace_rule_reports_reason() {
    let rule = r#"||www.youtube.com/watch?$xhr,1p,replace=/"adPlacements"/"no_ads"/"#;
    let (parsed, ty, err) = parse(rule);
    assert!(parsed.is_none());
    assert_eq!(ty, Some("network"));
    assert!(
        err.as_deref().unwrap_or("").contains("Unrecognised"),
        "expected an UnrecognisedOption error, got {err:?}"
    );
}

#[test]
fn parsed_scriptlet_with_missing_status_is_unsupported() {
    // The verdict for a parsed rule whose resource status is given as `Missing`.
    let rule = "youtube.com##+js(this-scriptlet-does-not-exist-xyz)";
    let (parsed, _ty, parse_error) = parse(rule);
    assert!(parsed.is_some(), "rule should parse");
    let (supported, reason) = support(&parsed, parse_error, ResourceStatus::Missing);
    assert!(!supported);
    assert_eq!(reason.as_deref(), Some("resource missing"));
}

#[test]
fn parsed_scriptlet_with_resolved_status_is_supported() {
    // The verdict for a parsed rule whose resource status is given as `Resolved`.
    let rule = "youtube.com##+js(set, foo, 1)";
    let (parsed, _ty, parse_error) = parse(rule);
    let (supported, reason) = support(&parsed, parse_error, ResourceStatus::Resolved);
    assert!(supported);
    assert!(reason.is_none());
}

#[test]
fn comment_and_header_lines_are_not_filters() {
    assert!(!is_filter_line("! a comment"));
    assert!(!is_filter_line("[Adblock Plus 2.0]"));
    assert!(!is_filter_line(""));
    assert!(is_filter_line("||youtube.com^"));
}

#[test]
fn resolve_list_error_names_the_value() {
    assert_eq!(
        resolve_list("--json").unwrap_err(),
        "unknown list '--json': use ubo, easylist, easyprivacy, or an http(s) URL"
    );
    assert_eq!(resolve_list("http://x").unwrap(), "http://x");
    assert!(resolve_list("ftp://x").is_err());
    assert!(resolve_list("UBO").is_err());
}

#[test]
fn list_tokens_trim_unicode_whitespace() {
    assert_eq!(list_tokens(&["\u{3000}ubo\t,\u{a0}easylist\r\n".to_string()]), vec!["ubo", "easylist"]);
    assert_eq!(list_tokens(&[",".to_string(), " ".to_string()]), Vec::<String>::new());
    assert_eq!(list_tokens(&["a, b c ,d".to_string()]), vec!["a", "b c", "d"]);
}

#[test]
fn law_comma_equals_repetition_example() {
    assert_eq!(
        list_tokens(&["ubo , easylist".to_string()]),
        list_tokens(&["ubo ".to_string(), " easylist".to_string()])
    );
}

#[test]
fn collect_rules_trims_filters_and_dedups() {
    let text = "! Title: x\n[Adblock Plus 2.0]\n  ||a.com^  \r\n\n||b.com^\n||a.com^\nexample.com##.ad";
    assert_eq!(collect_rules(text), vec!["||a.com^", "||b.com^", "example.com##.ad"]);
    assert!(collect_rules("").is_empty());
    assert!(collect_rules("\n\n   \n! c\n").is_empty());
    // lists joined with a newline keep the first occurrence only
    let joined = ["||x^\n||y^\n", "||y^\n||z^"].join("\n");
    assert_eq!(collect_rules(&joined), vec!["||x^", "||y^", "||z^"]);
}

#[test]
fn empty_and_unsupported_parse_outcomes() {
    let (parsed, ty, err) = classify(FilterOutcome::Empty);
    assert!(parsed.is_none());
    assert_eq!(ty, None);
    assert_eq!(err.as_deref(), Some("empty"));
    let (parsed, ty, err) = classify(FilterOutcome::Unsupported);
    assert!(parsed.is_none());
    assert_eq!(ty, None);
    assert_eq!(err.as_deref(), Some("unsupported"));
    let (parsed, ty, err) = classify(FilterOutcome::CosmeticError("E".to_string()));
    assert!(parsed.is_none());
    assert_eq!(ty, Some("cosmetic"));
    assert_eq!(err.as_deref(), Some("E"));
    let (parsed, ty, err) = parse("   ");
    assert!(parsed.is_none());
    assert_eq!(ty, None);
    assert_eq!(err.as_deref(), Some("empty"));
}

#[test]
fn support_reasons() {
    let (parsed, _, _) = parse("||ads.youtube.com^");
    assert_eq!(support(&parsed, None, ResourceStatus::NotApplicable), (true, None));
    assert_eq!(support(&parsed, None, ResourceStatus::Resolved), (true, None));
    assert_eq!(
        support(&parsed, None, ResourceStatus::RequiresPermission),
        (false, Some("resource requires permission".to_string()))
    );
    // a rule that did not parse keeps its parse error, whatever the resource status
    assert_eq!(
        support(&None, Some("bad".to_string()), ResourceStatus::Resolved),
        (false, Some("bad".to_string()))
    );
}

#[test]
fn law_every_unsupported_rule_has_one_reason() {
    for rule in ["||ads.youtube.com^", "youtube.com##.x", "||a.com^$replace=/a/b/", "   "] {
        let (parsed, _, err) = parse(rule);
        for status in [
            ResourceStatus::NotApplicable,
            ResourceStatus::Resolved,
            ResourceStatus::Missing,
            ResourceStatus::RequiresPermission,
        ] {
            let (supported, reason) = support(&parsed, err.clone(), status);
            assert_eq!(supported, reason.is_none());
        }
    }
}

#[test]
fn rule_report_skips_unrelated_rules() {
    let (parsed, ty, err) = parse("||ads.youtube.com^");
    assert!(rule_report("||ads.youtube.com^".to_string(), &parsed, ty, err.clone(), Some(vec![]), ResourceStatus::Resolved).is_none());
    let r = rule_report(
        "||ads.youtube.com^".to_string(),
        &parsed,
        ty,
        err.clone(),
        Some(vec![Relation::Target]),
        ResourceStatus::Missing,
    )
    .unwrap();
    assert!(!r.supported);
    assert_eq!(r.reason.as_deref(), Some("resource missing"));
    assert_eq!(r.relations, vec![Relation::Target]);
    let r = rule_report("||ads.youtube.com^".to_string(), &parsed, ty, err, None, ResourceStatus::NotApplicable).unwrap();
    assert!(r.supported);
    assert!(r.relations.is_empty());
    assert_eq!(r.filter_type, Some("network"));
}

#[test]
fn tags_and_prefixes() {
    let r = report("r", vec![Relation::Target, Relation::Scope], true, None, None);
    assert_eq!(tags(&r), "target+scope");
    assert_eq!(tag_prefix(&r), "[target+scope] ");
    let r = report("r", vec![], true, None, None);
    assert_eq!(tags(&r), "");
    assert_eq!(tag_prefix(&r), "");
}

#[test]
fn markdown_escaping() {
    assert_eq!(md_text("a|b||c"), "a\\|b\\|\\|c");
    assert_eq!(md_code("||a.com^$x|y"), "`\\|\\|a.com^$x\\|y`");
    assert_eq!(md_text(""), "");
}

#[test]
fn decimal_and_join() {
    assert_eq!(decimal_string(0), "0");
    assert_eq!(decimal_string(7), "7");
    assert_eq!(decimal_string(10), "10");
    assert_eq!(decimal_string(1234567890), "1234567890");
    assert_eq!(join_strings(&vec!["a".to_string(), "b".to_string(), "c".to_string()], ", "), "a, b, c");
    assert_eq!(join_strings(&vec![], "|"), "");
    assert_eq!(chars_of("aé|"), vec!['a', 'é', '|']);
}

fn sample_reports() -> Vec<RuleReport> {
    vec![
        report("||b.com^", vec![Relation::Target], false, Some("network"), Some("resource missing")),
        report("b.com##.x", vec![Relation::Scope], true, Some("cosmetic"), None),
        report("||a.com^$replace=/x/", vec![Relation::Target, Relation::Scope], false, Some("network"), Some("NetworkFilterError")),
        report("||a.com^", vec![Relation::Target], false, Some("network"), Some("resource missing")),
        report("||c.com^", vec![Relation::Target], true, Some("network"), None),
        report("weird", vec![Relation::Scope], false, None, Some("unsupported")),
    ]
}

#[test]
fn text_report_counts_and_sorts() {
    let lines = text_report_lines(&sample_reports(), true, true);
    assert_eq!(
        lines,
        vec![
            "Matching rules: 6  (target: 4, scope: 3)",
            "Supported:      2",
            "Unsupported:    4",
            "",
            "=== UNSUPPORTED RULES ===",
            "[target+scope] (NetworkFilterError) ||a.com^$replace=/x/",
            "[target] (resource missing) ||a.com^",
            "[target] (resource missing) ||b.com^",
            "[scope] (unsupported) weird",
            "",
            "=== SUPPORTED RULES ===",
            "[scope] [cosmetic] b.com##.x",
            "[target] [network] ||c.com^",
        ]
    );
}

#[test]
fn text_report_without_domains_or_unsupported() {
    let reports = vec![report("x##.y", vec![], true, Some("cosmetic"), None)];
    assert_eq!(
        text_report_lines(&reports, false, false),
        vec!["Rules checked:  1", "Supported:      1", "Unsupported:    0"]
    );
    assert_eq!(
        text_report_lines(&vec![], false, false),
        vec!["Rules checked:  0", "Supported:      0", "Unsupported:    0"]
    );
}

#[test]
fn text_report_orders_missing_reason_first_and_keeps_ties_stable() {
    let reports = vec![
        report("z", vec![], false, None, Some("b")),
        report("y", vec![], false, None, None),
        report("x", vec![], false, None, Some("b")),
        report("x", vec![], false, None, Some("a")),
    ];
    let lines = text_report_lines(&reports, false, false);
    assert_eq!(&lines[5..], ["(?) y", "(a) x", "(b) x", "(b) z"]);
}

#[test]
fn markdown_report_with_domains() {
    let domains = Some(vec!["youtube.com".to_string(), "a|b".to_string()]);
    let lines = markdown_report_lines(&sample_reports(), &domains, "file x.txt", "tool", "1.2.3");
    let expected: Vec<String> = vec![
        "# adblock-rust filter compatibility".to_string(),
        "".to_string(),
        "| | |".to_string(),
        "|---|---|".to_string(),
        "| Source | file x.txt |".to_string(),
        "| Domains | youtube.com, a\\|b |".to_string(),
        format!("| adblock-rust | {ADBLOCK_RUST_VERSION} |"),
        "| Tool | tool v1.2.3 |".to_string(),
        "".to_string(),
        "**6 matching rules** - 2 supported, 4 unsupported (target: 4, scope: 3).".to_string(),
        "".to_string(),
        "## Unsupported (4)".to_string(),
        "".to_string(),
        "| Tags | Reason | Rule |".to_string(),
        "|---|---|---|".to_string(),
        "| target+scope | NetworkFilterError | `\\|\\|a.com^$replace=/x/` |".to_string(),
        "| target | resource missing | `\\|\\|a.com^` |".to_string(),
        "| target | resource missing | `\\|\\|b.com^` |".to_string(),
        "| scope | unsupported | `weird` |".to_string(),
        "".to_string(),
        "## Supported (2)".to_string(),
        "".to_string(),
        "| Tags | Type | Rule |".to_string(),
        "|---|---|---|".to_string(),
        "| scope | cosmetic | `b.com##.x` |".to_string(),
        "| target | network | `\\|\\|c.com^` |".to_string(),
    ];
    assert_eq!(lines, expected);
}

#[test]
fn markdown_report_without_domains_or_rules() {
    let lines = markdown_report_lines(&vec![], &None, "s", "t", "v");
    assert_eq!(
        lines,
        vec![
            "# adblock-rust filter compatibility",
            "",
            "| | |",
            "|---|---|",
            "| Source | s |",
            "| Domains | all (no domain filter) |",
            "| adblock-rust | 0.12.x |",
            "| Tool | t vv |",
            "",
            "**0 rules checked** - 0 supported, 0 unsupported.",
            "",
            "## Unsupported (0)",
            "",
            "_None._",
            "",
            "## Supported (0)",
            "",
            "_None._",
        ]
    );
}

#[test]
fn law_markdown_is_deterministic_and_order_independent() {
    let a = sample_reports();
    let mut b = sample_reports();
    b.reverse();
    let d = Some(vec!["youtube.com".to_string()]);
    assert_eq!(
        markdown_report_lines(&a, &d, "s", "t", "v"),
        markdown_report_lines(&b, &d, "s", "t", "v")
    );
    assert_eq!(
        markdown_report_lines(&a, &d, "s", "t", "v"),
        markdown_report_lines(&a, &d, "s", "t", "v")
    );
}

#[test]
fn markdown_sorts_by_reason_and_marks_empty_sections() {
    let reports = vec![
        report("a", vec![], false, None, Some("b")),
        report("z", vec![], false, None, Some("a")),
    ];
    let lines = markdown_report_lines(&reports, &None, "s", "t", "v");
    assert_eq!(lines[9], "**2 rules checked** - 0 supported, 2 unsupported.");
    assert_eq!(lines[11], "## Unsupported (2)");
    assert_eq!(&lines[13..17], ["| Reason | Rule |", "|---|---|", "| a | `z` |", "| b | `a` |"]);
    assert_eq!(&lines[18..], ["## Supported (0)", "", "_None._"]);
}
