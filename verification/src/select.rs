//! The selector boundary and resolution: order the rendered lines for
//! display, hand them to the picker as one text, and map the picker's
//! verbatim choice back to the identifier it came from.

use vstd::prelude::*;
use vstd::string::StringExecFns;
use crate::model::Action;
use crate::model::LineV;
use crate::model::PipelineError;
use crate::model::RenderedLine;
use crate::render::first_line;
use crate::render::first_line_of;

verus! {

/// The presentation order: the rendered lines as they stand, or
/// reversed when the reverse flag is set.  Positions were assigned
/// before this point, so only the visual order flips.
pub open spec fn display_order(lines: Seq<LineV>, reverse: bool) -> Seq<LineV> {
    if reverse {
        lines.reverse()
    } else {
        lines
    }
}

/// Executable form of [`display_order`].
pub fn display_lines(lines: &Vec<RenderedLine>, reverse: bool) -> (r: Vec<RenderedLine>)
    ensures
        r.deep_view() == display_order(lines.deep_view(), reverse),
{
    let n = lines.len();
    let mut out: Vec<RenderedLine> = Vec::new();
    let mut i: usize = 0;
    while i < n
        invariant
            n == lines@.len(),
            i <= n,
            out@.len() == i,
            forall|j: int|
                0 <= j < i ==> out@[j].deep_view() == display_order(lines.deep_view(), reverse)[j],
        decreases n - i,
    {
        let k = if reverse {
            n - 1 - i
        } else {
            i
        };
        out.push(RenderedLine { text: lines[k].text.clone(), id: lines[k].id.clone() });
        i += 1;
        proof {
            assert(out@[i - 1].deep_view() == display_order(lines.deep_view(), reverse)[i - 1]);
        }
    }
    proof {
        assert forall|j: int| 0 <= j < n implies out.deep_view()[j] == display_order(
            lines.deep_view(),
            reverse,
        )[j] by {
            assert(out.deep_view()[j] == out@[j].deep_view());
        }
        assert(out.deep_view() =~= display_order(lines.deep_view(), reverse));
    }
    out
}

proof fn lemma_reverse_multiset(s: Seq<LineV>)
    ensures
        s.reverse().to_multiset() == s.to_multiset(),
    decreases s.len(),
{
    broadcast use vstd::seq_lib::lemma_multiset_commutative;
    broadcast use vstd::multiset::group_multiset_axioms;

    if s.len() == 0 {
        assert(s.reverse() =~= s);
    } else {
        let d = s.drop_last();
        let x = s.last();
        lemma_reverse_multiset(d);
        assert(s =~= d + seq![x]);
        assert(s.reverse() =~= seq![x] + d.reverse());
        assert(d.to_multiset().add(seq![x].to_multiset()) =~= seq![x].to_multiset().add(
            d.to_multiset(),
        ));
    }
}

/// Law: the collection of rendered lines — and so the set of
/// (position, title) pairs embedded in them — is the same whether or
/// not the reverse flag is set; only the presentation order differs.
pub proof fn lemma_reverse_keeps_lines(lines: Seq<LineV>, reverse: bool)
    ensures
        display_order(lines, reverse).to_multiset() == lines.to_multiset(),
{
    if reverse {
        lemma_reverse_multiset(lines);
    }
}

/// The menu text handed to the picker: each line's text followed by one
/// line separator, in display order.
pub open spec fn menu_string(lines: Seq<LineV>) -> Seq<char>
    decreases lines.len(),
{
    if lines.len() == 0 {
        Seq::empty()
    } else {
        menu_string(lines.drop_last()) + lines.last().text + "\n"@
    }
}

/// Executable form of [`menu_string`].
pub fn menu_text(lines: &Vec<RenderedLine>) -> (r: String)
    ensures
        r@ == menu_string(lines.deep_view()),
{
    let n = lines.len();
    let mut out = String::new();
    let mut i: usize = 0;
    while i < n
        invariant
            n == lines@.len(),
            i <= n,
            out@ == menu_string(lines.deep_view().subrange(0, i as int)),
        decreases n - i,
    {
        proof {
            let cur = lines.deep_view().subrange(0, i as int + 1);
            assert(cur.drop_last() =~= lines.deep_view().subrange(0, i as int));
            assert(cur.last() == lines.deep_view()[i as int]);
        }
        out.append(lines[i].text.as_str());
        out.append("\n");
        i += 1;
    }
    proof {
        assert(lines.deep_view().subrange(0, n as int) =~= lines.deep_view());
    }
    out
}

/// Index of the first line whose text is exactly `text`, in the order
/// given.
pub open spec fn find_first(lines: Seq<LineV>, text: Seq<char>) -> Option<int>
    decreases lines.len(),
{
    if lines.len() == 0 {
        None
    } else if lines[0].text == text {
        Some(0int)
    } else {
        match find_first(lines.drop_first(), text) {
            Some(k) => Some(k + 1),
            None => None,
        }
    }
}

proof fn lemma_find_first_char(s: Seq<LineV>, t: Seq<char>)
    ensures
        match find_first(s, t) {
            Some(j) => 0 <= j < s.len() && s[j].text == t && (forall|k: int|
                0 <= k < j ==> (#[trigger] s[k]).text != t),
            None => forall|k: int| 0 <= k < s.len() ==> (#[trigger] s[k]).text != t,
        },
    decreases s.len(),
{
    if s.len() > 0 && s[0].text != t {
        lemma_find_first_char(s.drop_first(), t);
        match find_first(s.drop_first(), t) {
            Some(k) => {
                assert(s.drop_first()[k] == s[k + 1]);
                assert(find_first(s, t) == Some(k + 1));
                assert forall|k2: int| 0 <= k2 < k + 1 implies (#[trigger] s[k2]).text != t by {
                    if k2 > 0 {
                        assert(s.drop_first()[k2 - 1] == s[k2]);
                    }
                }
            },
            None => {
                assert forall|k2: int| 0 <= k2 < s.len() implies (#[trigger] s[k2]).text != t by {
                    if k2 > 0 {
                        assert(s.drop_first()[k2 - 1] == s[k2]);
                    }
                }
            },
        }
    }
}

/// Resolve the picker's verbatim choice to the identifier of the first
/// line, in display order, whose text matches it exactly.
pub fn resolve(lines: &Vec<RenderedLine>, chosen: &String) -> (r: Option<String>)
    ensures
        match find_first(lines.deep_view(), chosen@) {
            Some(j) => r matches Some(id) && id@ == lines.deep_view()[j].id,
            None => r is None,
        },
{
    let n = lines.len();
    let mut i: usize = 0;
    while i < n
        invariant
            n == lines@.len(),
            i <= n,
            forall|k: int| 0 <= k < i ==> (#[trigger] lines.deep_view()[k]).text != chosen@,
        decreases n - i,
    {
        if lines[i].text == *chosen {
            proof {
                lemma_find_first_at(lines.deep_view(), chosen@, i as int);
            }
            return Some(lines[i].id.clone());
        }
        proof {
            assert(lines.deep_view()[i as int].text == lines@[i as int].text@);
        }
        i += 1;
    }
    proof {
        lemma_find_first_at(lines.deep_view(), chosen@, n as int);
    }
    None
}

proof fn lemma_find_first_at(s: Seq<LineV>, t: Seq<char>, i: int)
    requires
        0 <= i <= s.len(),
        forall|k: int| 0 <= k < i ==> (#[trigger] s[k]).text != t,
        i < s.len() ==> s[i].text == t,
    ensures
        i < s.len() ==> find_first(s, t) == Some(i),
        i == s.len() ==> find_first(s, t) is None,
    decreases s.len(),
{
    if s.len() > 0 && i > 0 {
        assert(forall|k: int| 0 <= k < s.drop_first().len() ==> s.drop_first()[k] == s[k + 1]);
        lemma_find_first_at(s.drop_first(), t, i - 1);
    }
}

/// Law: feeding any produced line's exact text back into resolution
/// finds the first line, in display order, that renders that text: a
/// line whose text is unique resolves to its own identifier, and when
/// two lines render identical text the earlier one wins
/// deterministically.
pub proof fn lemma_round_trip(lines: Seq<LineV>, i: int)
    requires
        0 <= i < lines.len(),
    ensures
        find_first(lines, lines[i].text) matches Some(j) && 0 <= j <= i && lines[j].text
            == lines[i].text && (forall|k: int| 0 <= k < j ==> (#[trigger] lines[k]).text
            != lines[i].text),
        (forall|k: int| 0 <= k < i ==> (#[trigger] lines[k]).text != lines[i].text)
            ==> find_first(lines, lines[i].text) == Some(i),
{
    lemma_find_first_char(lines, lines[i].text);
    let r = find_first(lines, lines[i].text);
    if r is None {
        assert(lines[i].text != lines[i].text);
    }
    let j = r->Some_0;
    if j > i {
        assert(lines[i].text != lines[i].text);
    }
    if forall|k: int| 0 <= k < i ==> (#[trigger] lines[k]).text != lines[i].text {
        if j < i {
            assert(lines[j].text != lines[i].text);
        }
    }
}

/// Judge the picker's outcome.  A failed or empty pick is a clean
/// cancellation and nothing else; otherwise the first line of the
/// picker's output is resolved against the displayed lines, and text
/// the picker was never given is the fatal resolution error.
pub fn decide_selection(exit_ok: bool, output: &String, shown: &Vec<RenderedLine>) -> (r: Result<
    Action,
    PipelineError,
>)
    ensures
        (!exit_ok || output@.len() == 0) <==> (r matches Ok(a) && a is Cancel),
        exit_ok && output@.len() > 0 ==> match find_first(shown.deep_view(), first_line(output@)) {
            Some(j) => r matches Ok(a) && (a matches Action::Focus(id) && id@ == shown.deep_view()[j].id),
            None => r matches Err(e) && e is SelectionNotFound,
        },
{
    if !exit_ok || output.as_str().is_empty() {
        return Ok(Action::Cancel);
    }
    let chosen = first_line_of(output.as_str());
    match resolve(shown, &chosen) {
        Some(id) => Ok(Action::Focus(id)),
        None => Err(PipelineError::SelectionNotFound),
    }
}

} // verus!
