//! Where filter lists come from: preset names, URLs, and the `--list` values.
use vstd::prelude::*;
use vstd::string::StringExecFns;

use crate::text::{chars_of, has_prefix, same_chars, split_on, starts_with_at, string_of, trim, trim_bounds};

verus! {

broadcast use vstd::string::group_string_axioms;

/// uBlock Origin's main filter list.
pub const UBO_URL: &'static str =
    "https://raw.githubusercontent.com/uBlockOrigin/uAssets/master/filters/filters.txt";

/// EasyList.
pub const EASYLIST_URL: &'static str = "https://easylist.to/easylist/easylist.txt";

/// EasyPrivacy.
pub const EASYPRIVACY_URL: &'static str = "https://easylist.to/easylist/easyprivacy.txt";

/// The message for a `--list` value that is neither a preset nor an http(s) URL.
pub open spec fn unknown_list_message(value: Seq<char>) -> Seq<char> {
    "unknown list '"@ + value + "': use ubo, easylist, easyprivacy, or an http(s) URL"@
}

/// What a `--list` value stands for: the URL of a preset, the value itself when
/// it is an http(s) URL, or an error message.
pub open spec fn list_url(value: Seq<char>) -> Result<Seq<char>, Seq<char>> {
    if value == "ubo"@ {
        Ok(UBO_URL@)
    } else if value == "easylist"@ {
        Ok(EASYLIST_URL@)
    } else if value == "easyprivacy"@ {
        Ok(EASYPRIVACY_URL@)
    } else if has_prefix(value, "http://"@) || has_prefix(value, "https://"@) {
        Ok(value)
    } else {
        Err(unknown_list_message(value))
    }
}

/// A `Result` of two strings, taken by the views of its strings.
pub open spec fn result_view(r: Result<String, String>) -> Result<Seq<char>, Seq<char>> {
    match r {
        Ok(s) => Ok(s@),
        Err(e) => Err(e@),
    }
}

/// Resolves a `--list` value (a preset name or an http(s) URL) to a URL.
pub fn resolve_list(value: &str) -> (r: Result<String, String>)
    ensures
        result_view(r) == list_url(value@),
{
    let v = chars_of(value);
    if same_chars(&v, &chars_of("ubo")) {
        Ok(String::from_str(UBO_URL))
    } else if same_chars(&v, &chars_of("easylist")) {
        Ok(String::from_str(EASYLIST_URL))
    } else if same_chars(&v, &chars_of("easyprivacy")) {
        Ok(String::from_str(EASYPRIVACY_URL))
    } else if starts_with_at(&v, 0, &chars_of("http://")) || starts_with_at(
        &v,
        0,
        &chars_of("https://"),
    ) {
        assert(v@.skip(0) == v@);
        Ok(value.to_owned())
    } else {
        assert(v@.skip(0) == v@);
        let mut e = String::from_str("unknown list '");
        e.append(value);
        e.append("': use ubo, easylist, easyprivacy, or an http(s) URL");
        Err(e)
    }
}

/// The trimmed, non-empty pieces among `pieces`, in order.
pub open spec fn kept_pieces(pieces: Seq<Seq<char>>) -> Seq<Seq<char>>
    decreases pieces.len(),
{
    if pieces.len() == 0 {
        Seq::<Seq<char>>::empty()
    } else {
        let kept = kept_pieces(pieces.drop_last());
        if trim(pieces.last()).len() > 0 {
            kept.push(trim(pieces.last()))
        } else {
            kept
        }
    }
}

/// The tokens of a list of values: each value split at commas, each piece trimmed,
/// the empty ones dropped.
pub open spec fn tokens_of(values: Seq<Seq<char>>) -> Seq<Seq<char>>
    decreases values.len(),
{
    if values.len() == 0 {
        Seq::<Seq<char>>::empty()
    } else {
        tokens_of(values.drop_last()) + kept_pieces(split_on(values.last(), ','))
    }
}

/// The strings of `v`, each taken by its view.
pub open spec fn strings_view(v: Seq<String>) -> Seq<Seq<char>> {
    v.map_values(|s: String| s@)
}

/// Appends to `out` the trimmed, non-empty comma-separated pieces of `value`.
fn push_tokens(out: &mut Vec<String>, value: &str)
    ensures
        strings_view(final(out)@) == strings_view(old(out)@) + kept_pieces(split_on(value@, ',')),
{
    let v = chars_of(value);
    let ghost base = strings_view(out@);
    let mut start: usize = 0;
    let mut k: usize = 0;
    assert(v@.take(0) =~= Seq::<char>::empty());
    while k < v.len()
        invariant
            start <= k <= v.len(),
            v@ == value@,
            split_on(v@.take(k as int), ',').len() >= 1,
            split_on(v@.take(k as int), ',').last() == v@.subrange(start as int, k as int),
            strings_view(out@) == base + kept_pieces(split_on(v@.take(k as int), ',').drop_last()),
        decreases v.len() - k,
    {
        let ghost pieces = split_on(v@.take(k as int), ',');
        assert(v@.take(k + 1).drop_last() == v@.take(k as int));
        if v[k] == ',' {
            let (a, b) = trim_bounds(&v, start, k);
            let ghost before = strings_view(out@);
            if a < b {
                let t = string_of(&v, a, b);
                out.push(t);
                assert(strings_view(out@) =~= before.push(trim(pieces.last())));
                assert(base + kept_pieces(pieces.drop_last()).push(trim(pieces.last()))
                    =~= (base + kept_pieces(pieces.drop_last())).push(trim(pieces.last())));
            }
            assert(split_on(v@.take(k + 1), ',').drop_last() == pieces);
            assert(strings_view(out@) == base + kept_pieces(pieces)) by {
                assert(kept_pieces(pieces) == if trim(pieces.last()).len() > 0 {
                    kept_pieces(pieces.drop_last()).push(trim(pieces.last()))
                } else {
                    kept_pieces(pieces.drop_last())
                });
            }
            start = k + 1;
        } else {
            let ghost next = split_on(v@.take(k + 1), ',');
            assert(next.drop_last() == pieces.drop_last());
            assert(v@.subrange(start as int, k + 1) == v@.subrange(start as int, k as int).push(v@[k as int]));
        }
        k += 1;
    }
    assert(v@.take(k as int) == v@);
    let ghost pieces = split_on(v@, ',');
    let (a, b) = trim_bounds(&v, start, k);
    let ghost before = strings_view(out@);
    if a < b {
        let t = string_of(&v, a, b);
        out.push(t);
        assert(strings_view(out@) =~= before.push(trim(pieces.last())));
        assert(base + kept_pieces(pieces.drop_last()).push(trim(pieces.last()))
            =~= (base + kept_pieces(pieces.drop_last())).push(trim(pieces.last())));
    }
    assert(strings_view(out@) == base + kept_pieces(pieces)) by {
        assert(pieces == pieces.drop_last().push(pieces.last()));
        assert(kept_pieces(pieces) == if trim(pieces.last()).len() > 0 {
            kept_pieces(pieces.drop_last()).push(trim(pieces.last()))
        } else {
            kept_pieces(pieces.drop_last())
        });
    }
}

/// Expands `--list` values (comma-separated and/or repeated) into individual tokens,
/// trimmed, with empties dropped.
pub fn list_tokens(values: &[String]) -> (tokens: Vec<String>)
    ensures
        strings_view(tokens@) == tokens_of(strings_view(values@)),
        values@.len() == 1 && !values@[0]@.contains(',') ==> strings_view(tokens@) == (if trim(values@[0]@).len()
            > 0 {
            seq![trim(values@[0]@)]
        } else {
            Seq::<Seq<char>>::empty()
        }),
{
    let mut out: Vec<String> = Vec::new();
    let mut i: usize = 0;
    while i < values.len()
        invariant
            i <= values.len(),
            strings_view(out@) == tokens_of(strings_view(values@.take(i as int))),
        decreases values.len() - i,
    {
        let ghost before = strings_view(values@.take(i as int));
        push_tokens(&mut out, values[i].as_str());
        assert(strings_view(values@.take(i + 1)).drop_last() == before);
        i += 1;
    }
    assert(values@.take(i as int) == values@);
    proof {
        if values@.len() == 1 && !values@[0]@.contains(',') {
            crate::output_laws::law_comma_free_value_is_its_token(values@[0]@);
            assert(strings_view(values@) =~= seq![values@[0]@]);
        }
    }
    out
}

} // verus!
