//! Properties of the printed reports: how the two tables split the rules, and the
//! markdown report's independence from the order in which rules came.
use vstd::prelude::*;

use crate::markdown::{markdown_report, rule_table, table_cells};
use crate::order::{in_order, key_lt, lemma_key_lt_order, lemma_ranks_order, ranks_before, KeyView};
use crate::render::{
    count_related, count_supported, is_listing, lemma_count_supported_bound, listing, positions_where,
    reason_keys, supported_order, type_keys, unsupported_order,
};
use crate::report::{Relation, ReportView};

verus! {

/// `s` with position `x` put in its place.
pub open spec fn insert_in_order(keys: Seq<KeyView>, s: Seq<usize>, x: usize) -> Seq<usize>
    decreases s.len(),
{
    if s.len() == 0 {
        seq![x]
    } else if ranks_before(keys, s.last() as int, x as int) {
        s.push(x)
    } else {
        insert_in_order(keys, s.drop_last(), x).push(s.last())
    }
}

/// Putting a new position in its place keeps the listing in order.
proof fn lemma_insert_in_order(keys: Seq<KeyView>, s: Seq<usize>, x: usize)
    requires
        in_order(keys, s),
        !s.contains(x),
    ensures
        in_order(keys, insert_in_order(keys, s, x)),
        forall|y: usize| insert_in_order(keys, s, x).contains(y) <==> (s.contains(y) || y == x),
    decreases s.len(),
{
    let r = insert_in_order(keys, s, x);
    if s.len() == 0 {
        assert(r[0] == x);
    } else if ranks_before(keys, s.last() as int, x as int) {
        assert forall|k: int, l: int| 0 <= k < l < r.len() implies ranks_before(keys, #[trigger] r[k] as int, #[trigger] r[l] as int) by {
            if l == s.len() && k < s.len() - 1 {
                assert(ranks_before(keys, s[k] as int, s.last() as int));
                lemma_ranks_order(keys, s[k] as int, s.last() as int, x as int);
            }
        }
        assert forall|y: usize| r.contains(y) <==> (s.contains(y) || y == x) by {
            if r.contains(y) {
                let k = choose|k: int| 0 <= k < r.len() && r[k] == y;
                if k < s.len() {
                    assert(s[k] == y);
                }
            }
            if s.contains(y) {
                let k = choose|k: int| 0 <= k < s.len() && s[k] == y;
                assert(r[k] == y);
            }
            assert(r[s.len() as int] == x);
        }
    } else {
        let s0 = s.drop_last();
        let last = s.last();
        assert(s.contains(last));
        assert(!s0.contains(x)) by {
            if s0.contains(x) {
                let k = choose|k: int| 0 <= k < s0.len() && s0[k] == x;
                assert(s[k] == x);
            }
        }
        assert(in_order(keys, s0));
        lemma_insert_in_order(keys, s0, x);
        let r0 = insert_in_order(keys, s0, x);
        lemma_ranks_order(keys, last as int, x as int, last as int);
        assert(x != last);
        assert(ranks_before(keys, x as int, last as int));
        assert forall|k: int| 0 <= k < r0.len() implies ranks_before(keys, #[trigger] r0[k] as int, last as int) by {
            assert(r0.contains(r0[k]));
            if r0[k] != x {
                assert(s0.contains(r0[k]));
                let j = choose|j: int| 0 <= j < s0.len() && s0[j] == r0[k];
                assert(ranks_before(keys, s[j] as int, s[s.len() - 1] as int));
            }
        }
        assert forall|k: int, l: int| 0 <= k < l < r.len() implies ranks_before(keys, #[trigger] r[k] as int, #[trigger] r[l] as int) by {
            if l == r.len() - 1 {
                assert(r[k] == r0[k]);
            } else {
                assert(r[k] == r0[k] && r[l] == r0[l]);
            }
        }
        assert forall|y: usize| r.contains(y) <==> (s.contains(y) || y == x) by {
            if r.contains(y) {
                let k = choose|k: int| 0 <= k < r.len() && r[k] == y;
                if k < r0.len() {
                    assert(r0.contains(y));
                    if y != x {
                        assert(s0.contains(y));
                        let j = choose|j: int| 0 <= j < s0.len() && s0[j] == y;
                        assert(s[j] == y);
                    }
                }
            }
            if s.contains(y) {
                let k = choose|k: int| 0 <= k < s.len() && s[k] == y;
                if k < s0.len() {
                    assert(s0[k] == y);
                    assert(s0.contains(y));
                    assert(r0.contains(y));
                    let j = choose|j: int| 0 <= j < r0.len() && r0[j] == y;
                    assert(r[j] == y);
                } else {
                    assert(r[r.len() - 1] == y);
                }
            }
            if y == x {
                assert(r0.contains(x));
                let j = choose|j: int| 0 <= j < r0.len() && r0[j] == x;
                assert(r[j] == x);
            }
        }
    }
}

/// An orderly listing of the first `n` reports whose `supported` is `want` exists,
/// with as many positions as `positions_where` lists.
proof fn lemma_listing_exists(keys: Seq<KeyView>, rs: Seq<ReportView>, want: bool, n: int) -> (s: Seq<usize>)
    requires
        0 <= n <= rs.len(),
        rs.len() <= usize::MAX,
    ensures
        in_order(keys, s),
        forall|x: usize| s.contains(x) <==> (x < n && rs[x as int].supported == want),
        s.len() == positions_where(rs.take(n), want).len(),
    decreases n,
{
    if n == 0 {
        Seq::<usize>::empty()
    } else {
        let s0 = lemma_listing_exists(keys, rs, want, n - 1);
        assert(rs.take(n).drop_last() == rs.take(n - 1));
        if rs[n - 1].supported == want {
            let x = (n - 1) as usize;
            assert(x as int == n - 1);
            assert(!s0.contains(x));
            lemma_insert_in_order(keys, s0, x);
            let s = insert_in_order(keys, s0, x);
            lemma_insert_length(keys, s0, x);
            assert forall|y: usize| s.contains(y) <==> (y < n && rs[y as int].supported == want) by {
                assert(s.contains(y) <==> (s0.contains(y) || y == x));
                assert(s0.contains(y) <==> (y < n - 1 && rs[y as int].supported == want));
            }
            s
        } else {
            assert forall|y: usize| s0.contains(y) <==> (y < n && rs[y as int].supported == want) by {
                if y == n - 1 {
                    assert(!(y < n - 1));
                }
            }
            s0
        }
    }
}

/// Inserting adds one position.
proof fn lemma_insert_length(keys: Seq<KeyView>, s: Seq<usize>, x: usize)
    ensures
        insert_in_order(keys, s, x).len() == s.len() + 1,
    decreases s.len(),
{
    if s.len() > 0 && !ranks_before(keys, s.last() as int, x as int) {
        lemma_insert_length(keys, s.drop_last(), x);
    }
}

/// `positions_where` lists as many positions as the reports it selects.
proof fn lemma_positions_count(rs: Seq<ReportView>)
    ensures
        positions_where(rs, true).len() == count_supported(rs),
        positions_where(rs, false).len() + count_supported(rs) == rs.len(),
    decreases rs.len(),
{
    if rs.len() > 0 {
        lemma_positions_count(rs.drop_last());
    }
}

/// The listing that `listing` names is orderly and has as many positions as there
/// are selected reports.
pub proof fn lemma_listing(keys: Seq<KeyView>, rs: Seq<ReportView>, want: bool)
    requires
        rs.len() <= usize::MAX,
    ensures
        is_listing(keys, rs, want, listing(keys, rs, want)),
        listing(keys, rs, want).len() == positions_where(rs, want).len(),
{
    let w = lemma_listing_exists(keys, rs, want, rs.len() as int);
    assert(rs.take(rs.len() as int) == rs);
    assert(is_listing(keys, rs, want, w));
    let l = listing(keys, rs, want);
    crate::order::lemma_in_order_unique(keys, w, l);
}

/// The two markdown tables split the rules: each report is listed in exactly one of
/// them, the supported table has as many rows as there are supported rules, and the
/// two together as many as there are rules.
pub proof fn law_tables_split_the_rules(rs: Seq<ReportView>)
    requires
        rs.len() <= usize::MAX,
    ensures
        supported_order(rs).len() == count_supported(rs),
        unsupported_order(rs).len() + supported_order(rs).len() == rs.len(),
        forall|x: usize|
            x < rs.len() ==> (unsupported_order(rs).contains(x) <==> !supported_order(rs).contains(x)),
{
    lemma_listing(reason_keys(rs), rs, false);
    lemma_listing(type_keys(rs), rs, true);
    lemma_positions_count(rs);
}

/// No two reports are of the same rule.
pub open spec fn rules_distinct(rs: Seq<ReportView>) -> bool {
    forall|i: int, j: int| 0 <= i < j < rs.len() ==> rs[i].rule != rs[j].rule
}

/// A report's sort key: by filter type (`by_type`) or by reason, then by rule.
pub open spec fn view_key(v: ReportView, by_type: bool) -> KeyView {
    if by_type {
        (v.filter_type, v.rule)
    } else {
        (v.reason, v.rule)
    }
}

/// The reports of `w` are in strict key order.
pub open spec fn key_sorted(w: Seq<ReportView>, by_type: bool) -> bool {
    forall|k: int, l: int| 0 <= k < l < w.len() ==> key_lt(view_key(w[k], by_type), view_key(w[l], by_type))
}

/// The listing by filter type (`by_type`) or by reason.
pub open spec fn listing_by(rs: Seq<ReportView>, by_type: bool, want: bool) -> Seq<usize> {
    if by_type {
        listing(type_keys(rs), rs, want)
    } else {
        listing(reason_keys(rs), rs, want)
    }
}

/// The reports at the positions of `order`.
pub open spec fn listed_views(rs: Seq<ReportView>, order: Seq<usize>) -> Seq<ReportView> {
    order.map_values(|i: usize| rs[i as int])
}

/// The reports a listing lists are in strict key order, and are exactly the
/// reports whose `supported` is `want`.
proof fn lemma_listed_views(rs: Seq<ReportView>, by_type: bool, want: bool)
    requires
        rules_distinct(rs),
        rs.len() <= usize::MAX,
    ensures
        key_sorted(listed_views(rs, listing_by(rs, by_type, want)), by_type),
        forall|v: ReportView|
            listed_views(rs, listing_by(rs, by_type, want)).contains(v) <==> (rs.contains(v) && v.supported
                == want),
{
    let keys = if by_type {
        type_keys(rs)
    } else {
        reason_keys(rs)
    };
    lemma_listing(keys, rs, want);
    let order = listing(keys, rs, want);
    assert(order == listing_by(rs, by_type, want));
    let w = listed_views(rs, order);
    assert forall|i: int| 0 <= i < rs.len() implies #[trigger] keys[i] == view_key(rs[i], by_type) by {}
    assert forall|k: int, l: int| 0 <= k < l < w.len() implies key_lt(view_key(w[k], by_type), view_key(w[l], by_type)) by {
        let a = order[k] as int;
        let b = order[l] as int;
        assert(order.contains(order[k]));
        assert(order.contains(order[l]));
        assert(ranks_before(keys, a, b));
        lemma_ranks_order(keys, a, a, b);
        if keys[a] == keys[b] {
            if a < b {
                assert(rs[a].rule != rs[b].rule);
            } else if b < a {
                assert(rs[b].rule != rs[a].rule);
            }
        }
    }
    assert forall|v: ReportView| w.contains(v) <==> (rs.contains(v) && v.supported == want) by {
        if w.contains(v) {
            let k = choose|k: int| 0 <= k < w.len() && w[k] == v;
            assert(order.contains(order[k]));
        }
        if rs.contains(v) && v.supported == want {
            let i = choose|i: int| 0 <= i < rs.len() && rs[i] == v;
            assert(order.contains(i as usize));
            let k = choose|k: int| 0 <= k < order.len() && order[k] == i as usize;
            assert(w[k] == v);
        }
    }
}

/// Two key-ordered runs of the same reports are the same run.
proof fn lemma_views_unique(a: Seq<ReportView>, b: Seq<ReportView>, by_type: bool)
    requires
        key_sorted(a, by_type),
        key_sorted(b, by_type),
        forall|v: ReportView| a.contains(v) <==> b.contains(v),
    ensures
        a == b,
    decreases a.len(),
{
    if a.len() == 0 {
        if b.len() > 0 {
            assert(b.contains(b[0]));
        }
        assert(a =~= b);
    } else {
        assert(a.contains(a[0]));
        let k = choose|k: int| 0 <= k < b.len() && b[k] == a[0];
        assert(b.contains(b[0]));
        let m = choose|m: int| 0 <= m < a.len() && a[m] == b[0];
        lemma_key_lt_order(view_key(a[0], by_type), view_key(b[0], by_type), view_key(a[0], by_type));
        if k > 0 {
            assert(key_lt(view_key(b[0], by_type), view_key(b[k], by_type)));
            if m > 0 {
                assert(key_lt(view_key(a[0], by_type), view_key(a[m], by_type)));
            }
            assert(false);
        }
        let a1 = a.drop_first();
        let b1 = b.drop_first();
        assert forall|v: ReportView| a1.contains(v) <==> b1.contains(v) by {
            if a1.contains(v) {
                let i = choose|i: int| 0 <= i < a1.len() && a1[i] == v;
                assert(key_lt(view_key(a[0], by_type), view_key(a[i + 1], by_type)));
                lemma_key_lt_order(view_key(a[0], by_type), view_key(a[0], by_type), view_key(a[0], by_type));
                assert(a.contains(v));
                let j = choose|j: int| 0 <= j < b.len() && b[j] == v;
                assert(j != 0);
                assert(b1[j - 1] == v);
            }
            if b1.contains(v) {
                let i = choose|i: int| 0 <= i < b1.len() && b1[i] == v;
                assert(key_lt(view_key(b[0], by_type), view_key(b[i + 1], by_type)));
                lemma_key_lt_order(view_key(b[0], by_type), view_key(b[0], by_type), view_key(b[0], by_type));
                assert(b.contains(v));
                let j = choose|j: int| 0 <= j < a.len() && a[j] == v;
                assert(j != 0);
                assert(a1[j - 1] == v);
            }
        }
        assert(key_sorted(a1, by_type)) by {
            assert forall|k: int, l: int| 0 <= k < l < a1.len() implies key_lt(view_key(a1[k], by_type), view_key(a1[l], by_type)) by {
                assert(a1[k] == a[k + 1] && a1[l] == a[l + 1]);
            }
        }
        assert(key_sorted(b1, by_type)) by {
            assert forall|k: int, l: int| 0 <= k < l < b1.len() implies key_lt(view_key(b1[k], by_type), view_key(b1[l], by_type)) by {
                assert(b1[k] == b[k + 1] && b1[l] == b[l + 1]);
            }
        }
        lemma_views_unique(a1, b1, by_type);
        assert(a =~= seq![a[0]] + a1);
        assert(b =~= seq![b[0]] + b1);
    }
}

/// The reports whose rules have relation `rel`, in report order.
proof fn lemma_related_views(rs: Seq<ReportView>, rel: Relation) -> (s: Seq<ReportView>)
    requires
        rs.no_duplicates(),
    ensures
        s.len() == count_related(rs, rel),
        s.no_duplicates(),
        forall|v: ReportView| s.contains(v) <==> (rs.contains(v) && v.relations.contains(rel)),
    decreases rs.len(),
{
    if rs.len() == 0 {
        Seq::<ReportView>::empty()
    } else {
        let r0 = rs.drop_last();
        assert(r0.no_duplicates()) by {
            assert forall|i: int, j: int| 0 <= i < r0.len() && 0 <= j < r0.len() && i != j implies r0[i] != r0[j] by {
                assert(rs[i] == r0[i] && rs[j] == r0[j]);
            }
        }
        let s0 = lemma_related_views(r0, rel);
        let v = rs.last();
        assert(!r0.contains(v)) by {
            if r0.contains(v) {
                let i = choose|i: int| 0 <= i < r0.len() && r0[i] == v;
                assert(rs[i] == rs[rs.len() - 1]);
            }
        }
        assert forall|x: ReportView| rs.contains(x) <==> (r0.contains(x) || x == v) by {
            if rs.contains(x) {
                let i = choose|i: int| 0 <= i < rs.len() && rs[i] == x;
                if i < rs.len() - 1 {
                    assert(r0[i] == x);
                }
            }
            if r0.contains(x) {
                let i = choose|i: int| 0 <= i < r0.len() && r0[i] == x;
                assert(rs[i] == x);
            }
            assert(rs[rs.len() - 1] == v);
        }
        if v.relations.contains(rel) {
            let s = s0.push(v);
            assert forall|x: ReportView| s.contains(x) <==> (s0.contains(x) || x == v) by {
                if s.contains(x) {
                    let i = choose|i: int| 0 <= i < s.len() && s[i] == x;
                    if i < s0.len() {
                        assert(s0[i] == x);
                    }
                }
                if s0.contains(x) {
                    let i = choose|i: int| 0 <= i < s0.len() && s0[i] == x;
                    assert(s[i] == x);
                }
                assert(s[s0.len() as int] == v);
            }
            assert(s.no_duplicates()) by {
                assert forall|i: int, j: int| 0 <= i < s.len() && 0 <= j < s.len() && i != j implies s[i] != s[j] by {
                    if i == s0.len() {
                        assert(s0.contains(s[j]));
                    } else if j == s0.len() {
                        assert(s0.contains(s[i]));
                    }
                }
            }
            s
        } else {
            s0
        }
    }
}

/// The markdown report does not depend on the order in which the rules came: two
/// runs of the same reports (each rule once) give the same report.
pub proof fn law_markdown_ignores_rule_order(
    rs1: Seq<ReportView>,
    rs2: Seq<ReportView>,
    domains: Option<Seq<Seq<char>>>,
    source: Seq<char>,
    tool: Seq<char>,
    version: Seq<char>,
)
    requires
        rules_distinct(rs1),
        rules_distinct(rs2),
        forall|r: ReportView| rs1.contains(r) <==> rs2.contains(r),
        rs1.len() <= usize::MAX,
        rs2.len() <= usize::MAX,
    ensures
        markdown_report(rs1, domains, source, tool, version) == markdown_report(rs2, domains, source, tool, version),
{
    assert(rs1.no_duplicates());
    assert(rs2.no_duplicates());
    assert(rs1.to_set() =~= rs2.to_set());
    rs1.unique_seq_to_set();
    rs2.unique_seq_to_set();
    let df = domains is Some;
    // unsupported rules, by reason
    lemma_listed_views(rs1, false, false);
    lemma_listed_views(rs2, false, false);
    let uo1 = unsupported_order(rs1);
    let uo2 = unsupported_order(rs2);
    assert(uo1 == listing_by(rs1, false, false) && uo2 == listing_by(rs2, false, false));
    assert forall|v: ReportView| listed_views(rs1, uo1).contains(v) <==> listed_views(rs2, uo2).contains(v) by {
        assert(rs1.contains(v) <==> rs2.contains(v));
    }
    lemma_views_unique(listed_views(rs1, uo1), listed_views(rs2, uo2), false);
    // supported rules, by filter type
    lemma_listed_views(rs1, true, true);
    lemma_listed_views(rs2, true, true);
    let so1 = supported_order(rs1);
    let so2 = supported_order(rs2);
    assert(so1 == listing_by(rs1, true, true) && so2 == listing_by(rs2, true, true));
    assert forall|v: ReportView| listed_views(rs1, so1).contains(v) <==> listed_views(rs2, so2).contains(v) by {
        assert(rs1.contains(v) <==> rs2.contains(v));
    }
    lemma_views_unique(listed_views(rs1, so1), listed_views(rs2, so2), true);
    law_tables_split_the_rules(rs1);
    law_tables_split_the_rules(rs2);
    assert(uo1.len() == listed_views(rs1, uo1).len());
    assert(so1.len() == listed_views(rs1, so1).len());
    // relation counts
    let t1 = lemma_related_views(rs1, Relation::Target);
    let t2 = lemma_related_views(rs2, Relation::Target);
    assert(t1.to_set() =~= t2.to_set());
    t1.unique_seq_to_set();
    t2.unique_seq_to_set();
    let c1 = lemma_related_views(rs1, Relation::Scope);
    let c2 = lemma_related_views(rs2, Relation::Scope);
    assert(c1.to_set() =~= c2.to_set());
    c1.unique_seq_to_set();
    c2.unique_seq_to_set();
    // the tables
    assert(uo1.map_values(|i: usize| table_cells(rs1[i as int], df, false)) =~= listed_views(rs1, uo1).map_values(
        |v: ReportView| table_cells(v, df, false),
    ));
    assert(uo2.map_values(|i: usize| table_cells(rs2[i as int], df, false)) =~= listed_views(rs2, uo2).map_values(
        |v: ReportView| table_cells(v, df, false),
    ));
    assert(so1.map_values(|i: usize| table_cells(rs1[i as int], df, true)) =~= listed_views(rs1, so1).map_values(
        |v: ReportView| table_cells(v, df, true),
    ));
    assert(so2.map_values(|i: usize| table_cells(rs2[i as int], df, true)) =~= listed_views(rs2, so2).map_values(
        |v: ReportView| table_cells(v, df, true),
    ));
    assert(rule_table(rs1, uo1, df, false) == rule_table(rs2, uo2, df, false));
    assert(rule_table(rs1, so1, df, true) == rule_table(rs2, so2, df, true));
}

} // verus!
