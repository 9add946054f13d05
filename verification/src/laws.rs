//! Properties of the library as a whole, stated over the spec functions that the
//! functions' own contracts use.
use vstd::prelude::*;

use crate::filter::{outcome_error, support_verdict, OutcomeView, ResourceStatus};
use crate::report::escape_pipes;
use crate::rules::{filter_lines, first_occurrences, is_filter, rules_of};
use crate::sources::{kept_pieces, list_url, tokens_of, EASYLIST_URL, EASYPRIVACY_URL, UBO_URL};
use crate::text::{has_prefix, split_on, trim};

verus! {

/// Whether an outcome is a parsed filter.
pub open spec fn outcome_parsed(o: OutcomeView) -> bool {
    o is Network || o is Cosmetic
}

/// A rule is supported exactly when adblock-rust parsed it and its resource (if any)
/// resolves; and an unsupported rule always has exactly one reason, a supported one
/// none.
pub proof fn law_supported_iff_parsed_and_resolved(o: OutcomeView, status: ResourceStatus)
    ensures
        support_verdict(outcome_parsed(o), outcome_error(o), status).0 <==> (outcome_parsed(o) && (
        status is NotApplicable || status is Resolved)),
        support_verdict(outcome_parsed(o), outcome_error(o), status).0 <==> support_verdict(
            outcome_parsed(o),
            outcome_error(o),
            status,
        ).1 is None,
{
}

/// `first_occurrences` keeps exactly the elements of its input.
proof fn lemma_first_occurrences(s: Seq<Seq<char>>)
    ensures
        first_occurrences(s).no_duplicates(),
        forall|x: Seq<char>| first_occurrences(s).contains(x) <==> s.contains(x),
    decreases s.len(),
{
    if s.len() > 0 {
        let d = first_occurrences(s.drop_last());
        lemma_first_occurrences(s.drop_last());
        assert forall|x: Seq<char>| first_occurrences(s).contains(x) <==> s.contains(x) by {
            if s.contains(x) {
                let k = choose|k: int| 0 <= k < s.len() && s[k] == x;
                if k < s.len() - 1 {
                    assert(s.drop_last()[k] == x);
                }
            }
            if s.drop_last().contains(x) {
                let k = choose|k: int| 0 <= k < s.drop_last().len() && s.drop_last()[k] == x;
                assert(s[k] == x);
            }
            if !d.contains(s.last()) {
                assert(d.push(s.last())[d.len() as int] == s.last());
                if d.push(s.last()).contains(x) && x != s.last() {
                    let k = choose|k: int| 0 <= k < d.push(s.last()).len() && d.push(s.last())[k] == x;
                    assert(d[k] == x);
                }
                if d.contains(x) {
                    let k = choose|k: int| 0 <= k < d.len() && d[k] == x;
                    assert(d.push(s.last())[k] == x);
                }
            }
        }
        if !d.contains(s.last()) {
            assert forall|a: int, b: int|
                0 <= a < b < d.push(s.last()).len() implies d.push(s.last())[a] != d.push(s.last())[b] by {
                if b == d.len() {
                    assert(d[a] == d.push(s.last())[a]);
                }
            }
        }
    }
}

/// Every element of `filter_lines` is a filter rule.
proof fn lemma_filter_lines_are_filters(lines: Seq<Seq<char>>)
    ensures
        forall|k: int| 0 <= k < filter_lines(lines).len() ==> is_filter(#[trigger] filter_lines(lines)[k]),
    decreases lines.len(),
{
    if lines.len() > 0 {
        lemma_filter_lines_are_filters(lines.drop_last());
        let kept = filter_lines(lines.drop_last());
        assert forall|k: int| 0 <= k < filter_lines(lines).len() implies is_filter(
            #[trigger] filter_lines(lines)[k],
        ) by {
            if k < kept.len() {
                assert(filter_lines(lines)[k] == kept[k]);
            }
        }
    }
}

/// Rules are de-duplicated: the rules of a text hold no rule twice, hold every
/// trimmed filter line of the text, and nothing else; each is a filter rule.
pub proof fn law_rules_distinct_and_complete(text: Seq<char>)
    ensures
        rules_of(text).no_duplicates(),
        forall|x: Seq<char>| rules_of(text).contains(x) <==> filter_lines(split_on(text, '\n')).contains(x),
        forall|k: int| 0 <= k < rules_of(text).len() ==> is_filter(#[trigger] rules_of(text)[k]),
{
    let f = filter_lines(split_on(text, '\n'));
    lemma_first_occurrences(f);
    lemma_filter_lines_are_filters(split_on(text, '\n'));
    assert forall|k: int| 0 <= k < rules_of(text).len() implies is_filter(#[trigger] rules_of(text)[k]) by {
        assert(rules_of(text).contains(rules_of(text)[k]));
        assert(f.contains(rules_of(text)[k]));
        let j = choose|j: int| 0 <= j < f.len() && f[j] == rules_of(text)[k];
        assert(is_filter(f[j]));
    }
}

/// Splitting `x`, a separator and `y` gives the pieces of `x` then those of `y`.
proof fn lemma_split_concat(x: Seq<char>, y: Seq<char>, sep: char)
    ensures
        split_on(x + seq![sep] + y, sep) == split_on(x, sep) + split_on(y, sep),
    decreases y.len(),
{
    if y.len() == 0 {
        assert(x + seq![sep] + y == (x + seq![sep]));
        assert((x + seq![sep]).drop_last() == x);
        assert(split_on(y, sep) == seq![Seq::<char>::empty()]);
    } else {
        lemma_split_concat(x, y.drop_last(), sep);
        let whole = x + seq![sep] + y;
        assert(whole.drop_last() == x + seq![sep] + y.drop_last());
        assert(whole.last() == y.last());
        crate::text::lemma_split_nonempty(y.drop_last(), sep);
        let a = split_on(x, sep);
        let b = split_on(y.drop_last(), sep);
        if y.last() == sep {
            assert((a + b).push(Seq::<char>::empty()) =~= a + b.push(Seq::<char>::empty()));
        } else {
            assert((a + b).update((a + b).len() - 1, (a + b).last().push(y.last())) =~= a + b.update(
                b.len() - 1,
                b.last().push(y.last()),
            ));
        }
    }
}

/// `kept_pieces` of two runs of pieces is that of each, one after the other.
proof fn lemma_kept_concat(a: Seq<Seq<char>>, b: Seq<Seq<char>>)
    ensures
        kept_pieces(a + b) == kept_pieces(a) + kept_pieces(b),
    decreases b.len(),
{
    if b.len() == 0 {
        assert(a + b == a);
    } else {
        lemma_kept_concat(a, b.drop_last());
        assert((a + b).drop_last() == a + b.drop_last());
        assert((a + b).last() == b.last());
    }
}

/// `tokens_of` of two runs of values is that of each, one after the other.
proof fn lemma_tokens_concat(a: Seq<Seq<char>>, b: Seq<Seq<char>>)
    ensures
        tokens_of(a + b) == tokens_of(a) + tokens_of(b),
    decreases b.len(),
{
    if b.len() == 0 {
        assert(a + b == a);
    } else {
        lemma_tokens_concat(a, b.drop_last());
        assert((a + b).drop_last() == a + b.drop_last());
        assert((a + b).last() == b.last());
    }
}

/// Repeating a `--list` flag and separating its values with a comma are the same:
/// the tokens of `x,y` are the tokens of `x` then those of `y`, and the tokens of a
/// run of values are those of each value in turn.
pub proof fn law_comma_is_repetition(x: Seq<char>, y: Seq<char>, rest: Seq<Seq<char>>)
    ensures
        tokens_of(seq![x + seq![','] + y]) == tokens_of(seq![x, y]),
        tokens_of(seq![x] + rest) == tokens_of(seq![x]) + tokens_of(rest),
{
    lemma_split_concat(x, y, ',');
    lemma_kept_concat(split_on(x, ','), split_on(y, ','));
    assert(seq![x + seq![','] + y].drop_last() =~= Seq::<Seq<char>>::empty());
    assert(seq![x, y].drop_last() =~= seq![x]);
    assert(seq![x].drop_last() =~= Seq::<Seq<char>>::empty());
    lemma_tokens_concat(seq![x], rest);
}

/// Every trimmed piece kept is non-empty.
proof fn lemma_kept_nonempty(p: Seq<Seq<char>>)
    ensures
        forall|k: int| 0 <= k < kept_pieces(p).len() ==> (#[trigger] kept_pieces(p)[k]).len() > 0,
    decreases p.len(),
{
    if p.len() > 0 {
        lemma_kept_nonempty(p.drop_last());
        let kept = kept_pieces(p.drop_last());
        assert forall|k: int| 0 <= k < kept_pieces(p).len() implies (#[trigger] kept_pieces(p)[k]).len() > 0 by {
            if k < kept.len() {
                assert(kept_pieces(p)[k] == kept[k]);
            }
        }
    }
}

/// No token is empty.
pub proof fn law_tokens_nonempty(values: Seq<Seq<char>>)
    ensures
        forall|k: int| 0 <= k < tokens_of(values).len() ==> (#[trigger] tokens_of(values)[k]).len() > 0,
    decreases values.len(),
{
    if values.len() > 0 {
        law_tokens_nonempty(values.drop_last());
        lemma_kept_nonempty(split_on(values.last(), ','));
        let a = tokens_of(values.drop_last());
        let b = kept_pieces(split_on(values.last(), ','));
        assert forall|k: int| 0 <= k < (a + b).len() implies (#[trigger] (a + b)[k]).len() > 0 by {
            if k >= a.len() {
                assert((a + b)[k] == b[k - a.len()]);
            }
        }
    }
}

/// Whatever `--list` value resolves, it resolves to an http(s) URL; a value that is
/// neither a preset nor such a URL (a stray flag, say) is refused.
pub proof fn law_resolved_lists_are_urls(value: Seq<char>)
    ensures
        list_url(value) matches Ok(u) ==> has_prefix(u, "http://"@) || has_prefix(u, "https://"@),
        list_url(value) is Err <==> !(value == "ubo"@ || value == "easylist"@ || value == "easyprivacy"@
            || has_prefix(value, "http://"@) || has_prefix(value, "https://"@)),
{
    reveal_strlit("https://");
    reveal_strlit("https://raw.githubusercontent.com/uBlockOrigin/uAssets/master/filters/filters.txt");
    reveal_strlit("https://easylist.to/easylist/easylist.txt");
    reveal_strlit("https://easylist.to/easylist/easyprivacy.txt");
    assert(UBO_URL@.take(8) =~= "https://"@);
    assert(EASYLIST_URL@.take(8) =~= "https://"@);
    assert(EASYPRIVACY_URL@.take(8) =~= "https://"@);
}

/// Escaping leaves no bare `|`: every `|` of an escaped text follows a `\`.
pub proof fn law_escaped_pipes(s: Seq<char>)
    ensures
        forall|i: int|
            0 <= i < escape_pipes(s).len() && #[trigger] escape_pipes(s)[i] == '|' ==> i > 0 && escape_pipes(s)[i
                - 1] == '\\',
    decreases s.len(),
{
    if s.len() > 0 {
        law_escaped_pipes(s.drop_last());
        let e = escape_pipes(s.drop_last());
        assert forall|i: int|
            0 <= i < escape_pipes(s).len() && #[trigger] escape_pipes(s)[i] == '|' implies i > 0 && escape_pipes(
                s,
            )[i - 1] == '\\' by {
            if i < e.len() {
                assert(escape_pipes(s)[i] == e[i]);
                assert(escape_pipes(s)[i - 1] == e[i - 1]);
            }
        }
    }
}

/// `filter_lines` of two runs of lines is that of each, one after the other.
proof fn lemma_filter_lines_concat(a: Seq<Seq<char>>, b: Seq<Seq<char>>)
    ensures
        filter_lines(a + b) == filter_lines(a) + filter_lines(b),
    decreases b.len(),
{
    if b.len() == 0 {
        assert(a + b == a);
    } else {
        lemma_filter_lines_concat(a, b.drop_last());
        assert((a + b).drop_last() == a + b.drop_last());
        assert((a + b).last() == b.last());
    }
}

/// Lists read together are one corpus: the rules of two texts joined by a line
/// break are exactly the rules of either text, each once.
pub proof fn law_joined_lists_merge_rules(t1: Seq<char>, t2: Seq<char>)
    ensures
        rules_of(t1 + seq!['\n'] + t2).no_duplicates(),
        forall|x: Seq<char>|
            rules_of(t1 + seq!['\n'] + t2).contains(x) <==> (rules_of(t1).contains(x) || rules_of(t2).contains(x)),
{
    let joined = t1 + seq!['\n'] + t2;
    lemma_split_concat(t1, t2, '\n');
    let a = split_on(t1, '\n');
    let b = split_on(t2, '\n');
    lemma_filter_lines_concat(a, b);
    law_rules_distinct_and_complete(joined);
    law_rules_distinct_and_complete(t1);
    law_rules_distinct_and_complete(t2);
    let fa = filter_lines(a);
    let fb = filter_lines(b);
    assert forall|x: Seq<char>| (fa + fb).contains(x) <==> (fa.contains(x) || fb.contains(x)) by {
        if (fa + fb).contains(x) {
            let k = choose|k: int| 0 <= k < (fa + fb).len() && (fa + fb)[k] == x;
            if k < fa.len() {
                assert(fa[k] == x);
            } else {
                assert(fb[k - fa.len()] == x);
            }
        }
        if fa.contains(x) {
            let k = choose|k: int| 0 <= k < fa.len() && fa[k] == x;
            assert((fa + fb)[k] == x);
        }
        if fb.contains(x) {
            let k = choose|k: int| 0 <= k < fb.len() && fb[k] == x;
            assert((fa + fb)[k + fa.len()] == x);
        }
    }
}

} // verus!
