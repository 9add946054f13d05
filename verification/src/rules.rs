//! Which lines of a filter list are rules, and the de-duplicated rules of a text.
use vstd::hash_set::StringHashSet;
use vstd::prelude::*;

use crate::sources::strings_view;
use crate::text::{split_on, string_of, trim, trim_bounds};

verus! {

broadcast use vstd::string::group_string_axioms;

/// A (trimmed) line is a filter rule unless it is empty, a `!` comment or a
/// `[...]` header.
pub open spec fn is_filter(line: Seq<char>) -> bool {
    line.len() > 0 && line[0] != '!' && line[0] != '['
}

/// Whether `line` is a filter rule rather than a blank, comment or header line.
pub fn is_filter_line(line: &str) -> (b: bool)
    ensures
        b == is_filter(line@),
        b == (line@.len() > 0 && line@[0] != '!' && line@[0] != '['),
{
    let v = crate::text::chars_of(line);
    v.len() > 0 && v[0] != '!' && v[0] != '['
}

/// The trimmed lines among `lines` that are filter rules, in order.
pub open spec fn filter_lines(lines: Seq<Seq<char>>) -> Seq<Seq<char>>
    decreases lines.len(),
{
    if lines.len() == 0 {
        Seq::<Seq<char>>::empty()
    } else {
        let kept = filter_lines(lines.drop_last());
        if is_filter(trim(lines.last())) {
            kept.push(trim(lines.last()))
        } else {
            kept
        }
    }
}

/// `s` with every element after its first occurrence dropped.
pub open spec fn first_occurrences(s: Seq<Seq<char>>) -> Seq<Seq<char>>
    decreases s.len(),
{
    if s.len() == 0 {
        Seq::<Seq<char>>::empty()
    } else {
        let kept = first_occurrences(s.drop_last());
        if kept.contains(s.last()) {
            kept
        } else {
            kept.push(s.last())
        }
    }
}

/// The rules of a filter-list text: its lines, trimmed, that are filter rules,
/// each kept at its first occurrence only.
pub open spec fn rules_of(text: Seq<char>) -> Seq<Seq<char>> {
    first_occurrences(filter_lines(split_on(text, '\n')))
}

/// Adding one line to a text adds at most its trimmed rule, and only when that rule
/// has not occurred before.
proof fn lemma_rules_step(prev: Seq<Seq<char>>, line: Seq<char>)
    ensures
        first_occurrences(filter_lines(prev.push(line))) == (if is_filter(trim(line))
            && !first_occurrences(filter_lines(prev)).contains(trim(line)) {
            first_occurrences(filter_lines(prev)).push(trim(line))
        } else {
            first_occurrences(filter_lines(prev))
        }),
{
    assert(prev.push(line).drop_last() =~= prev);
    if is_filter(trim(line)) {
        assert(filter_lines(prev).push(trim(line)).drop_last() =~= filter_lines(prev));
    }
}

/// Takes one (untrimmed) line into the de-duplicated rules.
fn take_line(line: &Vec<char>, out: &mut Vec<String>, seen: &mut StringHashSet)
    requires
        forall|x: Seq<char>| old(seen)@.contains(x) <==> strings_view(old(out)@).contains(x),
    ensures
        forall|x: Seq<char>| final(seen)@.contains(x) <==> strings_view(final(out)@).contains(x),
        is_filter(trim(line@)) && !strings_view(old(out)@).contains(trim(line@)) ==> strings_view(
            final(out)@,
        ) == strings_view(old(out)@).push(trim(line@)),
        !(is_filter(trim(line@)) && !strings_view(old(out)@).contains(trim(line@))) ==> strings_view(
            final(out)@,
        ) == strings_view(old(out)@),
{
    let (a, b) = trim_bounds(line, 0, line.len());
    assert(line@.subrange(0, line@.len() as int) == line@);
    if a < b && line[a] != '!' && line[a] != '[' {
        let rule = string_of(line, a, b);
        let ghost before = strings_view(out@);
        if seen.insert(rule.clone()) {
            out.push(rule);
            assert(strings_view(out@) =~= before.push(trim(line@)));
            assert forall|x: Seq<char>| seen@.contains(x) <==> strings_view(out@).contains(x) by {
                if x == trim(line@) {
                    assert(strings_view(out@)[strings_view(out@).len() - 1] == x);
                }
                if before.contains(x) {
                    let k = choose|k: int| 0 <= k < before.len() && before[k] == x;
                    assert(strings_view(out@)[k] == x);
                }
                if strings_view(out@).contains(x) && x != trim(line@) {
                    let k = choose|k: int| 0 <= k < strings_view(out@).len() && strings_view(out@)[k] == x;
                    assert(before[k] == x);
                }
            }
        }
    }
}

/// The rules of `text`: its lines, trimmed, that are filter rules, each kept at its
/// first occurrence only, in the order in which they first occur.
pub fn collect_rules(text: &str) -> (rules: Vec<String>)
    ensures
        strings_view(rules@) == rules_of(text@),
        strings_view(rules@).no_duplicates(),
        forall|x: Seq<char>|
            strings_view(rules@).contains(x) <==> crate::output_laws::trims_to(split_on(text@, '\n'), x) && x.len()
                > 0 && x[0] != '!' && x[0] != '[',
{
    let mut out: Vec<String> = Vec::new();
    let mut seen = StringHashSet::new();
    let mut line: Vec<char> = Vec::new();
    assert(text@.take(0) =~= Seq::<char>::empty());
    for c in it: text.chars()
        invariant
            it.seq() == text@,
            split_on(it.seq().take(it.index() as int), '\n').len() >= 1,
            split_on(it.seq().take(it.index() as int), '\n').last() == line@,
            strings_view(out@) == first_occurrences(
                filter_lines(split_on(it.seq().take(it.index() as int), '\n').drop_last()),
            ),
            forall|x: Seq<char>| seen@.contains(x) <==> strings_view(out@).contains(x),
    {
        let ghost done = it.seq().take(it.index() as int);
        let ghost pieces = split_on(done, '\n');
        assert(it.seq().take(it.index() + 1).drop_last() == done);
        if c == '\n' {
            take_line(&line, &mut out, &mut seen);
            proof {
                lemma_rules_step(pieces.drop_last(), line@);
            }
            assert(split_on(it.seq().take(it.index() + 1), '\n').drop_last() == pieces);
            assert(pieces == pieces.drop_last().push(pieces.last()));
            line = Vec::new();
        } else {
            let ghost next = split_on(it.seq().take(it.index() + 1), '\n');
            assert(next.drop_last() == pieces.drop_last());
            line.push(c);
        }
    }
    let ghost pieces = split_on(text@, '\n');
    assert(text@.take(text@.len() as int) == text@);
    take_line(&line, &mut out, &mut seen);
    assert(pieces == pieces.drop_last().push(pieces.last()));
    proof {
        lemma_rules_step(pieces.drop_last(), line@);
        crate::laws::law_rules_distinct_and_complete(text@);
        assert forall|x: Seq<char>|
            strings_view(out@).contains(x) <==> crate::output_laws::trims_to(split_on(text@, '\n'), x) && x.len()
                > 0 && x[0] != '!' && x[0] != '[' by {
            crate::output_laws::law_rules_are_the_non_comment_lines(text@, x);
        }
    }
    out
}

} // verus!
