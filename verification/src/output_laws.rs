//! What the counts, rules, tokens and per-rule reports are, stated through
//! properties that any correct result has.
use vstd::prelude::*;

use crate::laws::law_rules_distinct_and_complete;
use crate::markdown::markdown_report;
use crate::order::KeyView;
use crate::render::{count_supported, supported_order, text_report, unsupported_order};
use crate::filter::{support_verdict, ResourceStatus};
use crate::report::{decimal, digit, report_of, Relation, ReportView};
use crate::report_laws::law_tables_split_the_rules;
use crate::rules::{filter_lines, is_filter, rules_of};
use crate::sources::{kept_pieces, tokens_of};
use crate::text::{is_ws, split_on, trim, trim_end, trim_start};

verus! {

/// The number a run of decimal digits stands for.
pub open spec fn digits_value(s: Seq<char>) -> int
    decreases s.len(),
{
    if s.len() == 0 {
        0
    } else {
        digits_value(s.drop_last()) * 10 + (s.last() as int - '0' as int)
    }
}

/// A digit stands for its number.
proof fn lemma_digit(d: nat)
    requires
        d < 10,
    ensures
        digit(d) as int - '0' as int == d,
        '0' <= digit(d) <= '9',
{
}

/// `decimal(n)` is a run of decimal digits that stands for `n`.
pub proof fn law_decimal_is_the_number(n: nat)
    ensures
        decimal(n).len() > 0,
        forall|i: int| 0 <= i < decimal(n).len() ==> '0' <= #[trigger] decimal(n)[i] <= '9',
        digits_value(decimal(n)) == n,
    decreases n,
{
    lemma_digit(n % 10);
    if n < 10 {
        assert(n % 10 == n);
        assert(decimal(n).drop_last() =~= Seq::<char>::empty());
        assert(digits_value(Seq::<char>::empty()) == 0);
        assert(digits_value(decimal(n)) == digits_value(decimal(n).drop_last()) * 10 + (decimal(n).last() as int
            - '0' as int));
    } else {
        law_decimal_is_the_number(n / 10);
        let d = decimal(n / 10);
        assert(decimal(n).drop_last() == d);
        assert forall|i: int| 0 <= i < decimal(n).len() implies '0' <= #[trigger] decimal(n)[i] <= '9' by {
            if i < d.len() {
                assert(decimal(n)[i] == d[i]);
            }
        }
        assert(n == (n / 10) * 10 + n % 10) by (nonlinear_arith);
        assert(digits_value(decimal(n)) == digits_value(decimal(n).drop_last()) * 10 + (decimal(n).last() as int
            - '0' as int));
    }
}

/// The text report's three count lines show the number of reports, the number of
/// supported reports and the number of unsupported reports, and the last two add
/// up to the first.
pub proof fn law_text_report_counts(rs: Seq<ReportView>, show_supported: bool, domain_filtered: bool)
    requires
        rs.len() <= usize::MAX,
    ensures
        !domain_filtered ==> text_report(rs, show_supported, domain_filtered)[0] == "Rules checked:  "@ + decimal(
            rs.len(),
        ),
        domain_filtered ==> text_report(rs, show_supported, domain_filtered)[0].take(
            ("Matching rules: "@ + decimal(rs.len()) + "  (target: "@).len() as int,
        ) == "Matching rules: "@ + decimal(rs.len()) + "  (target: "@,
        text_report(rs, show_supported, domain_filtered)[1] == "Supported:      "@ + decimal(
            supported_order(rs).len(),
        ),
        text_report(rs, show_supported, domain_filtered)[2] == "Unsupported:    "@ + decimal(
            unsupported_order(rs).len(),
        ),
        supported_order(rs).len() + unsupported_order(rs).len() == rs.len(),
{
    law_tables_split_the_rules(rs);
    let t = text_report(rs, show_supported, domain_filtered);
    let p = "Matching rules: "@ + decimal(rs.len()) + "  (target: "@;
    if domain_filtered {
        assert(t[0].take(p.len() as int) =~= p);
    }
}

/// The markdown summary line shows the number of reports, then the number of
/// supported and of unsupported reports, which are the sizes of the two tables and
/// add up to the first; the unsupported heading shows the same unsupported count.
pub proof fn law_markdown_summary_counts(
    rs: Seq<ReportView>,
    domains: Option<Seq<Seq<char>>>,
    source: Seq<char>,
    tool: Seq<char>,
    version: Seq<char>,
)
    requires
        rs.len() <= usize::MAX,
    ensures
        domains is None ==> markdown_report(rs, domains, source, tool, version)[9] == "**"@ + decimal(rs.len())
            + " rules checked** - "@ + decimal(supported_order(rs).len()) + " supported, "@ + decimal(
            unsupported_order(rs).len(),
        ) + " unsupported."@,
        domains is Some ==> markdown_report(rs, domains, source, tool, version)[9].take(
            ("**"@ + decimal(rs.len()) + " matching rules** - "@ + decimal(supported_order(rs).len())
                + " supported, "@ + decimal(unsupported_order(rs).len()) + " unsupported (target: "@).len() as int,
        ) == "**"@ + decimal(rs.len()) + " matching rules** - "@ + decimal(supported_order(rs).len())
            + " supported, "@ + decimal(unsupported_order(rs).len()) + " unsupported (target: "@,
        markdown_report(rs, domains, source, tool, version)[11] == "## Unsupported ("@ + decimal(
            unsupported_order(rs).len(),
        ) + ")"@,
        supported_order(rs).len() + unsupported_order(rs).len() == rs.len(),
{
    law_tables_split_the_rules(rs);
    let m = markdown_report(rs, domains, source, tool, version);
    let p = "**"@ + decimal(rs.len()) + " matching rules** - "@ + decimal(supported_order(rs).len()) + " supported, "@
        + decimal(unsupported_order(rs).len()) + " unsupported (target: "@;
    if domains is Some {
        assert(m[9].take(p.len() as int) =~= p);
    }
}

/// Some line of `lines` trims to `x`.
pub open spec fn trims_to(lines: Seq<Seq<char>>, x: Seq<char>) -> bool {
    exists|l: Seq<char>| #[trigger] lines.contains(l) && trim(l) == x
}

/// Some line of `lines` trims to `x` exactly when one before the last does or the
/// last does.
proof fn lemma_trims_to_step(lines: Seq<Seq<char>>, x: Seq<char>)
    requires
        lines.len() > 0,
    ensures
        trims_to(lines, x) == (trims_to(lines.drop_last(), x) || trim(lines.last()) == x),
{
    let l0 = lines.drop_last();
    assert(lines.contains(lines.last()));
    if trims_to(lines, x) {
        let l = choose|l: Seq<char>| #[trigger] lines.contains(l) && trim(l) == x;
        let k = choose|k: int| 0 <= k < lines.len() && lines[k] == l;
        if k < lines.len() - 1 {
            assert(l0[k] == l);
            assert(l0.contains(l));
        }
    }
    if trims_to(l0, x) {
        let l = choose|l: Seq<char>| #[trigger] l0.contains(l) && trim(l) == x;
        let k = choose|k: int| 0 <= k < l0.len() && l0[k] == l;
        assert(lines[k] == l);
        assert(lines.contains(l));
    }
}

/// A trimmed line is among `filter_lines` exactly when some line trims to it and
/// it is not blank and starts with neither `!` nor `[`.
proof fn lemma_filter_lines_members(lines: Seq<Seq<char>>, x: Seq<char>)
    ensures
        filter_lines(lines).contains(x) <==> trims_to(lines, x) && x.len() > 0 && x[0] != '!' && x[0] != '[',
    decreases lines.len(),
{
    if lines.len() > 0 {
        let l0 = lines.drop_last();
        let last = lines.last();
        lemma_filter_lines_members(l0, x);
        lemma_trims_to_step(lines, x);
        let f0 = filter_lines(l0);
        if is_filter(trim(last)) {
            let f = f0.push(trim(last));
            assert(f[f0.len() as int] == trim(last));
            if f.contains(x) && x != trim(last) {
                let k = choose|k: int| 0 <= k < f.len() && f[k] == x;
                assert(f0[k] == x);
            }
            if f0.contains(x) {
                let k = choose|k: int| 0 <= k < f0.len() && f0[k] == x;
                assert(f[k] == x);
            }
        }
    }
}

/// The rules of a text are exactly its lines, trimmed, that are not blank and start
/// with neither `!` (a comment) nor `[` (a header): every other line is a rule,
/// whatever it starts with.
pub proof fn law_rules_are_the_non_comment_lines(text: Seq<char>, x: Seq<char>)
    ensures
        rules_of(text).contains(x) <==> trims_to(split_on(text, '\n'), x) && x.len() > 0 && x[0] != '!' && x[0]
            != '[',
{
    law_rules_distinct_and_complete(text);
    lemma_filter_lines_members(split_on(text, '\n'), x);
}

/// A text with no separator in it is a single piece.
proof fn lemma_split_without_separator(s: Seq<char>, sep: char)
    requires
        !s.contains(sep),
    ensures
        split_on(s, sep) == seq![s],
    decreases s.len(),
{
    if s.len() > 0 {
        assert(!s.drop_last().contains(sep)) by {
            if s.drop_last().contains(sep) {
                let k = choose|k: int| 0 <= k < s.drop_last().len() && s.drop_last()[k] == sep;
                assert(s[k] == sep);
            }
        }
        lemma_split_without_separator(s.drop_last(), sep);
        assert(s.contains(s.last()));
        assert(s.drop_last().push(s.last()) =~= s);
        assert(s.last() != sep);
        let pieces = split_on(s.drop_last(), sep);
        assert(pieces.len() - 1 == 0 && pieces.last() == s.drop_last());
        assert(seq![s.drop_last()].update(0, s) =~= seq![s]);
    } else {
        assert(s =~= Seq::<char>::empty());
    }
}

/// `trim` cuts a run of whitespace from each end and nothing else: it is a stretch
/// of `s` with only whitespace before and after it, and (unless empty) it neither
/// starts nor ends with whitespace.
pub proof fn law_trim_cuts_only_outer_whitespace(s: Seq<char>)
    ensures
        exists|a: int, b: int|
            {
                &&& 0 <= a <= b <= s.len()
                &&& trim(s) == s.subrange(a, b)
                &&& forall|i: int| 0 <= i < a ==> is_ws(#[trigger] s[i])
                &&& forall|i: int| b <= i < s.len() ==> is_ws(#[trigger] s[i])
                &&& a < b ==> !is_ws(s[a]) && !is_ws(s[b - 1])
            },
{
    let (a, t) = lemma_trim_start(s);
    let b = lemma_trim_end(t);
    assert(trim(s) == s.subrange(a, a + b));
    assert forall|i: int| a + b <= i < s.len() implies is_ws(#[trigger] s[i]) by {
        assert(s[i] == t[i - a]);
    }
    if 0 < b {
        assert(s[a] == t[0]);
        assert(s[a + b - 1] == t[b - 1]);
    }
    assert(s.subrange(a, a + b) =~= t.subrange(0, b));
}

/// `trim_start` drops the leading whitespace, `a` characters of it.
proof fn lemma_trim_start(s: Seq<char>) -> (r: (int, Seq<char>))
    ensures
        0 <= r.0 <= s.len(),
        r.1 == s.skip(r.0),
        trim_start(s) == r.1,
        forall|i: int| 0 <= i < r.0 ==> is_ws(#[trigger] s[i]),
        r.0 < s.len() ==> !is_ws(s[r.0]),
    decreases s.len(),
{
    if s.len() > 0 && is_ws(s[0]) {
        let (a, t) = lemma_trim_start(s.drop_first());
        assert(s.drop_first().skip(a) == s.skip(a + 1));
        assert forall|i: int| 0 <= i < a + 1 implies is_ws(#[trigger] s[i]) by {
            if i > 0 {
                assert(s[i] == s.drop_first()[i - 1]);
            }
        }
        if a + 1 < s.len() {
            assert(s[a + 1] == s.drop_first()[a]);
        }
        (a + 1, t)
    } else {
        assert(s.skip(0) == s);
        (0, s)
    }
}

/// `trim_end` keeps the first `b` characters, dropping the trailing whitespace.
proof fn lemma_trim_end(t: Seq<char>) -> (b: int)
    ensures
        0 <= b <= t.len(),
        trim_end(t) == t.take(b),
        forall|i: int| b <= i < t.len() ==> is_ws(#[trigger] t[i]),
        0 < b ==> !is_ws(t[b - 1]),
    decreases t.len(),
{
    if t.len() > 0 && is_ws(t.last()) {
        let b = lemma_trim_end(t.drop_last());
        assert(t.drop_last().take(b) == t.take(b));
        assert forall|i: int| b <= i < t.len() implies is_ws(#[trigger] t[i]) by {
            if i < t.len() - 1 {
                assert(t[i] == t.drop_last()[i]);
            }
        }
        if 0 < b {
            assert(t[b - 1] == t.drop_last()[b - 1]);
        }
        b
    } else {
        assert(t.take(t.len() as int) == t);
        t.len() as int
    }
}

/// A `--list` value with no comma gives exactly one token, itself trimmed, or none
/// when it is blank; so a value without surrounding whitespace is its own token,
/// character for character (no case change or other rewriting).
pub proof fn law_comma_free_value_is_its_token(v: Seq<char>)
    requires
        !v.contains(','),
    ensures
        tokens_of(seq![v]) == (if trim(v).len() > 0 {
            seq![trim(v)]
        } else {
            Seq::<Seq<char>>::empty()
        }),
        v.len() > 0 && !is_ws(v[0]) && !is_ws(v.last()) ==> tokens_of(seq![v]) == seq![v],
{
    lemma_split_without_separator(v, ',');
    let p = seq![v];
    let e = Seq::<Seq<char>>::empty();
    assert(p.drop_last() =~= e);
    assert(p.last() == v);
    assert(kept_pieces(e) == e);
    assert(kept_pieces(p) == (if trim(v).len() > 0 {
        e.push(trim(v))
    } else {
        e
    }));
    assert(e.push(trim(v)) =~= seq![trim(v)]);
    assert(tokens_of(e) == e);
    assert(tokens_of(p) == tokens_of(e) + kept_pieces(split_on(v, ',')));
    assert(e + kept_pieces(p) =~= kept_pieces(p));
    if v.len() > 0 && !is_ws(v[0]) && !is_ws(v.last()) {
        assert(trim_start(v) == v);
        assert(trim_end(v) == v);
    }
}

/// A rule's report holds every relation it was given, the rule itself and its filter
/// type; a rule with no relation to a domain set in use gets no report, and without
/// a domain set every rule gets one, with no relations.
pub proof fn law_report_keeps_its_relations(
    rule: Seq<char>,
    parsed: bool,
    filter_type: Option<Seq<char>>,
    parse_error: Option<Seq<char>>,
    relations: Option<Seq<Relation>>,
    status: ResourceStatus,
)
    ensures
        relations matches Some(rels) && rels.len() == 0 ==> report_of(
            rule,
            parsed,
            filter_type,
            parse_error,
            relations,
            status,
        ) is None,
        relations is Some && relations.unwrap().len() > 0 ==> report_of(
            rule,
            parsed,
            filter_type,
            parse_error,
            relations,
            status,
        ) == Some(
            ReportView {
                rule,
                relations: relations.unwrap(),
                supported: support_verdict(parsed, parse_error, status).0,
                filter_type,
                reason: support_verdict(parsed, parse_error, status).1,
            },
        ),
        relations is None ==> report_of(rule, parsed, filter_type, parse_error, relations, status) == Some(
            ReportView {
                rule,
                relations: Seq::<Relation>::empty(),
                supported: support_verdict(parsed, parse_error, status).0,
                filter_type,
                reason: support_verdict(parsed, parse_error, status).1,
            },
        ),
{
}

} // verus!
