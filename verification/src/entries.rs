//! Deduplication and title pairing: from the raw focus history to the
//! working list of entries.

use vstd::prelude::*;
use vstd::string::StringExecFns;
use itertools::Itertools;
use crate::model::Entry;
use crate::model::EntryV;
use crate::model::PipelineError;

verus! {

/// `s` with every element already in `seen`, and every repeat of an
/// earlier element, removed: the first occurrence of each element
/// survives, in its original place.
pub open spec fn dedup_from(s: Seq<Seq<char>>, seen: Set<Seq<char>>) -> Seq<Seq<char>>
    decreases s.len(),
{
    if s.len() == 0 {
        Seq::empty()
    } else if seen.contains(s[0]) {
        dedup_from(s.drop_first(), seen)
    } else {
        seq![s[0]] + dedup_from(s.drop_first(), seen.insert(s[0]))
    }
}

/// Keep-first deduplication: each distinct element once, at the place of
/// its first occurrence.
pub open spec fn dedup_first(s: Seq<Seq<char>>) -> Seq<Seq<char>> {
    dedup_from(s, Set::empty())
}

/// Index of the first occurrence of `x` in `s`; meaningful only when
/// `s.contains(x)`.
pub open spec fn first_occurrence(s: Seq<Seq<char>>, x: Seq<char>) -> int
    decreases s.len(),
{
    if s.len() == 0 {
        0
    } else if s[0] == x {
        0
    } else {
        1 + first_occurrence(s.drop_first(), x)
    }
}

/// No element appears twice.
pub open spec fn distinct_seq(s: Seq<Seq<char>>) -> bool {
    forall|i: int, j: int| 0 <= i < j < s.len() ==> s[i] != s[j]
}

/// The elements of `out` stand in the order of their first occurrences
/// in `orig`.
pub open spec fn ordered_by_first_occurrence(orig: Seq<Seq<char>>, out: Seq<Seq<char>>) -> bool {
    forall|i: int, j: int|
        0 <= i < j < out.len() ==> first_occurrence(orig, out[i]) < first_occurrence(
            orig,
            out[j],
        )
}

/// Relies on itertools' `unique`: duplicates are detected by hash and
/// equality, and only the first occurrence of each element is kept, in
/// the original order.
#[verifier::external_body]
fn unique_ids(v: Vec<String>) -> (r: Vec<String>)
    ensures
        r.deep_view() == dedup_first(v.deep_view()),
{
    v.into_iter().unique().collect()
}

/// The raw focus history reversed (most recent focus event first) and
/// deduplicated keeping first occurrences, so each window survives at
/// its most recent focus event.
pub fn recent_first_unique(raw: &Vec<String>) -> (r: Vec<String>)
    ensures
        r.deep_view() == dedup_first(raw.deep_view().reverse()),
{
    let n = raw.len();
    let mut rev: Vec<String> = Vec::new();
    let mut i: usize = 0;
    while i < n
        invariant
            n == raw.len(),
            i <= n,
            rev@.len() == i,
            forall|j: int| 0 <= j < i ==> rev@[j]@ == raw@[n - 1 - j]@,
        decreases n - i,
    {
        rev.push(raw[n - 1 - i].clone());
        i += 1;
        proof {
            assert(rev@[i - 1] == raw@[n - 1 - (i - 1)]);
        }
    }
    proof {
        assert forall|j: int| 0 <= j < n implies rev.deep_view()[j] == raw.deep_view().reverse()[j]
        by {
            assert(rev.deep_view()[j] == rev@[j]@);
            assert(raw.deep_view()[n - 1 - j] == raw@[n - 1 - j]@);
        }
        assert(rev.deep_view() =~= raw.deep_view().reverse());
    }
    unique_ids(rev)
}

proof fn lemma_contains_split(s: Seq<Seq<char>>, x: Seq<char>)
    requires
        s.len() > 0,
    ensures
        s.contains(x) <==> (s[0] == x || s.drop_first().contains(x)),
{
    if s.contains(x) {
        let i = choose|i: int| 0 <= i < s.len() && s[i] == x;
        if i > 0 {
            assert(s.drop_first()[i - 1] == x);
        }
    }
    if s.drop_first().contains(x) {
        let i = choose|i: int| 0 <= i < s.drop_first().len() && s.drop_first()[i] == x;
        assert(s[i + 1] == x);
    }
}

proof fn lemma_dedup_from(s: Seq<Seq<char>>, seen: Set<Seq<char>>)
    ensures
        forall|x: Seq<char>|
            #[trigger] dedup_from(s, seen).contains(x) <==> (s.contains(x) && !seen.contains(x)),
        distinct_seq(dedup_from(s, seen)),
        ordered_by_first_occurrence(s, dedup_from(s, seen)),
    decreases s.len(),
{
    let out = dedup_from(s, seen);
    if s.len() == 0 {
        assert(forall|x: Seq<char>| !(#[trigger] out.contains(x)));
    } else {
        let tail = s.drop_first();
        assert(forall|x: Seq<char>| #[trigger] s.contains(x) <==> (s[0] == x || tail.contains(x)))
            by {
            assert forall|x: Seq<char>|
                #[trigger] s.contains(x) <==> (s[0] == x || tail.contains(x)) by {
                lemma_contains_split(s, x);
            }
        }
        if seen.contains(s[0]) {
            lemma_dedup_from(tail, seen);
            assert(out == dedup_from(tail, seen));
            assert forall|i: int, j: int| 0 <= i < j < out.len() implies first_occurrence(
                s,
                out[i],
            ) < first_occurrence(s, out[j]) by {
                assert(out[i] == out[i] && out.contains(out[i]));
                assert(out[j] == out[j] && out.contains(out[j]));
                assert(tail.contains(out[i]) && !seen.contains(out[i]));
                assert(tail.contains(out[j]) && !seen.contains(out[j]));
                assert(out[i] != s[0] && out[j] != s[0]);
            }
        } else {
            let seen2 = seen.insert(s[0]);
            lemma_dedup_from(tail, seen2);
            let rest = dedup_from(tail, seen2);
            assert(out == seq![s[0]] + rest);
            assert(out[0] == s[0]);
            assert(forall|k: int| 0 <= k < rest.len() ==> out[k + 1] == rest[k]);
            assert forall|x: Seq<char>|
                #[trigger] out.contains(x) <==> (s.contains(x) && !seen.contains(x)) by {
                lemma_contains_split(out, x);
                assert(out.drop_first() =~= rest);
            }
            assert forall|i: int, j: int| 0 <= i < j < out.len() implies out[i] != out[j] by {
                if i == 0 {
                    assert(rest.contains(rest[j - 1]));
                    assert(out[j] == rest[j - 1]);
                } else {
                    assert(out[i] == rest[i - 1] && out[j] == rest[j - 1]);
                }
            }
            assert forall|i: int, j: int| 0 <= i < j < out.len() implies first_occurrence(
                s,
                out[i],
            ) < first_occurrence(s, out[j]) by {
                assert(rest.contains(rest[j - 1]));
                assert(out[j] == rest[j - 1] && rest[j - 1] != s[0]);
                assert(first_occurrence(s, out[j]) == 1 + first_occurrence(tail, out[j]));
                assert(first_occurrence(tail, out[j]) >= 0) by {
                    lemma_first_occurrence_nonneg(tail, out[j]);
                }
                if i > 0 {
                    assert(rest.contains(rest[i - 1]));
                    assert(out[i] == rest[i - 1] && rest[i - 1] != s[0]);
                    assert(first_occurrence(s, out[i]) == 1 + first_occurrence(tail, out[i]));
                }
            }
        }
    }
}

proof fn lemma_first_occurrence_nonneg(s: Seq<Seq<char>>, x: Seq<char>)
    ensures
        first_occurrence(s, x) >= 0,
    decreases s.len(),
{
    if s.len() > 0 && s[0] != x {
        lemma_first_occurrence_nonneg(s.drop_first(), x);
    }
}

proof fn lemma_reverse_contains(s: Seq<Seq<char>>, x: Seq<char>)
    ensures
        s.reverse().contains(x) <==> s.contains(x),
{
    if s.contains(x) {
        let i = choose|i: int| 0 <= i < s.len() && s[i] == x;
        assert(s.reverse()[s.len() - 1 - i] == x);
    }
    if s.reverse().contains(x) {
        let i = choose|i: int| 0 <= i < s.reverse().len() && s.reverse()[i] == x;
        assert(s[s.len() - 1 - i] == x);
    }
}

/// Law: for any raw identifier sequence, the deduplicated output
/// contains each distinct identifier exactly once — it holds exactly the
/// identifiers of the raw history, with no repeats — and its elements
/// stand in most-recent-occurrence-first order: ordered by their first
/// occurrence in the reversed (most-recent-first) history.
pub proof fn lemma_dedup_recent_first(raw: Seq<Seq<char>>)
    ensures
        forall|x: Seq<char>|
            #[trigger] dedup_first(raw.reverse()).contains(x) <==> raw.contains(x),
        distinct_seq(dedup_first(raw.reverse())),
        ordered_by_first_occurrence(raw.reverse(), dedup_first(raw.reverse())),
{
    lemma_dedup_from(raw.reverse(), Set::empty());
    assert forall|x: Seq<char>|
        #[trigger] dedup_first(raw.reverse()).contains(x) <==> raw.contains(x) by {
        lemma_reverse_contains(raw, x);
    }
}

/// The identifiers joined with single spaces: the one argument line the
/// title resolver is invoked with.
pub open spec fn joined_with_spaces(ids: Seq<Seq<char>>) -> Seq<char>
    decreases ids.len(),
{
    if ids.len() == 0 {
        Seq::empty()
    } else if ids.len() == 1 {
        ids[0]
    } else {
        joined_with_spaces(ids.drop_last()) + " "@ + ids.last()
    }
}

/// Executable form of [`joined_with_spaces`].
pub fn id_query(ids: &Vec<String>) -> (r: String)
    ensures
        r@ == joined_with_spaces(ids.deep_view()),
{
    let n = ids.len();
    let mut out = String::new();
    let mut i: usize = 0;
    while i < n
        invariant
            n == ids@.len(),
            i <= n,
            out@ == joined_with_spaces(ids.deep_view().subrange(0, i as int)),
        decreases n - i,
    {
        proof {
            let cur = ids.deep_view().subrange(0, i as int + 1);
            assert(cur.drop_last() =~= ids.deep_view().subrange(0, i as int));
            assert(cur.last() == ids.deep_view()[i as int]);
            if i == 0 {
                assert(Seq::<char>::empty() + ids.deep_view()[0] =~= ids.deep_view()[0]);
            }
        }
        if i > 0 {
            out.append(" ");
        }
        out.append(ids[i].as_str());
        i += 1;
    }
    proof {
        assert(ids.deep_view().subrange(0, n as int) =~= ids.deep_view());
    }
    out
}

/// Entries from positionally aligned identifiers and titles, the pairs
/// with a blank title dropped.  Defined from the back, so a loop that
/// walks the lists forward extends it one pair at a time.
pub open spec fn paired(ids: Seq<Seq<char>>, titles: Seq<Seq<char>>) -> Seq<EntryV>
    decreases ids.len(),
{
    if ids.len() == 0 || titles.len() == 0 {
        Seq::empty()
    } else {
        let rest = paired(ids.drop_last(), titles.drop_last());
        if titles.last().len() == 0 {
            rest
        } else {
            rest.push(EntryV { id: ids.last(), title: titles.last() })
        }
    }
}

/// Law: a blank-titled entry never exists: whatever the pairing's
/// inputs, every paired entry carries a nonempty title.
pub proof fn lemma_paired_titles_nonblank(ids: Seq<Seq<char>>, titles: Seq<Seq<char>>)
    ensures
        forall|k: int|
            0 <= k < paired(ids, titles).len() ==> (#[trigger] paired(ids, titles)[k]).title.len()
                > 0,
    decreases ids.len(),
{
    if ids.len() > 0 && titles.len() > 0 {
        lemma_paired_titles_nonblank(ids.drop_last(), titles.drop_last());
        let rest = paired(ids.drop_last(), titles.drop_last());
        if titles.last().len() > 0 {
            assert forall|k: int| 0 <= k < paired(ids, titles).len() implies (#[trigger] paired(
                ids,
                titles,
            )[k]).title.len() > 0 by {
                if k < rest.len() {
                    assert(paired(ids, titles)[k] == rest[k]);
                } else {
                    assert(paired(ids, titles)[k].title == titles.last());
                }
            }
        }
    }
}

/// Pair each identifier with its resolved title, in order, dropping
/// blank-titled windows.  A count mismatch between the two lists is the
/// fatal integration error of the title resolver.
pub fn pair_entries(ids: &Vec<String>, titles: &Vec<String>) -> (r: Result<
    Vec<Entry>,
    PipelineError,
>)
    ensures
        ids@.len() != titles@.len() <==> r matches Err(PipelineError::ResolutionMismatch),
        ids@.len() == titles@.len() ==> (r matches Ok(es) && es.deep_view() == paired(
            ids.deep_view(),
            titles.deep_view(),
        )),
{
    if ids.len() != titles.len() {
        return Err(PipelineError::ResolutionMismatch);
    }
    let n = ids.len();
    let mut out: Vec<Entry> = Vec::new();
    let mut i: usize = 0;
    while i < n
        invariant
            n == ids@.len() == titles@.len(),
            i <= n,
            out.deep_view() == paired(
                ids.deep_view().subrange(0, i as int),
                titles.deep_view().subrange(0, i as int),
            ),
        decreases n - i,
    {
        let ghost pre_ids = ids.deep_view().subrange(0, i as int);
        let ghost pre_titles = titles.deep_view().subrange(0, i as int);
        let ghost cur_ids = ids.deep_view().subrange(0, i as int + 1);
        let ghost cur_titles = titles.deep_view().subrange(0, i as int + 1);
        proof {
            assert(cur_ids.drop_last() =~= pre_ids);
            assert(cur_titles.drop_last() =~= pre_titles);
            assert(cur_ids.last() == ids.deep_view()[i as int]);
            assert(cur_titles.last() == titles.deep_view()[i as int]);
        }
        if !titles[i].as_str().is_empty() {
            out.push(Entry { id: ids[i].clone(), title: titles[i].clone() });
        }
        i += 1;
    }
    proof {
        assert(ids.deep_view().subrange(0, n as int) =~= ids.deep_view());
        assert(titles.deep_view().subrange(0, n as int) =~= titles.deep_view());
    }
    Ok(out)
}

} // verus!
