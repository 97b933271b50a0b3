//! The line renderer: build the shell command that expands the
//! user-supplied template for one entry, and turn the expansion's output
//! into a rendered menu line.

use vstd::prelude::*;
use vstd::string::StrSliceExecFns;
use vstd::string::StringExecFns;
use crate::model::OrderedEntry;
use crate::model::PipelineError;
use crate::model::RenderedLine;

verus! {

/// Every single quote replaced by a visually similar but syntactically
/// inert character, so a title can never terminate the single-quoted
/// shell string it is substituted into.
pub open spec fn escape_quotes(s: Seq<char>) -> Seq<char> {
    s.map_values(|c: char| if c == '\'' { '\u{2019}' } else { c })
}

/// Relies on `String::push`: appends exactly the one character.
#[verifier::external_body]
fn push_char(s: &mut String, c: char)
    ensures
        final(s)@ == old(s)@.push(c),
{
    s.push(c);
}

/// Executable form of [`escape_quotes`].
pub fn escape_title(s: &str) -> (r: String)
    ensures
        r@ == escape_quotes(s@),
{
    let n = s.unicode_len();
    let mut out = String::new();
    let mut i: usize = 0;
    while i < n
        invariant
            n == s@.len(),
            i <= n,
            out@.len() == i,
            forall|j: int|
                0 <= j < i ==> out@[j] == (if s@[j] == '\'' {
                    '\u{2019}'
                } else {
                    s@[j]
                }),
        decreases n - i,
    {
        let c = s.get_char(i);
        if c == '\'' {
            push_char(&mut out, '\u{2019}');
        } else {
            push_char(&mut out, c);
        }
        i += 1;
    }
    proof {
        assert(out@ =~= escape_quotes(s@));
    }
    out
}

/// The decimal digit character for `n`.
pub open spec fn dec_digit(n: int) -> char
    recommends
        0 <= n <= 9,
{
    ((0x30 + n) as u8) as char
}

/// The decimal digits of `n`, most significant first, no leading zeros.
pub open spec fn dec_str(n: nat) -> Seq<char>
    decreases n,
{
    if n < 10 {
        seq![dec_digit(n as int)]
    } else {
        dec_str(n / 10).push(dec_digit((n % 10) as int))
    }
}

/// Relies on the standard library's `Display` for `usize`: the value's
/// decimal digits, without sign or leading zeros.
#[verifier::external_body]
fn decimal(n: usize) -> (r: String)
    ensures
        r@ == dec_str(n as nat),
{
    n.to_string()
}

/// The pipe tail of the render command: nothing, or `| <filter>`.
pub open spec fn pipe_suffix(pipe: Option<Seq<char>>) -> Seq<char> {
    match pipe {
        Some(p) => "| "@ + p,
        None => Seq::<char>::empty(),
    }
}

/// The full shell command that renders one entry: the three named
/// values bound as shell variables — `line_number`, `xtitle` (quotes
/// escaped), `number_of_nodes` — then the template echoed under normal
/// shell expansion, piped through the post-filter when one is set.
pub open spec fn command_text(
    template: Seq<char>,
    position: nat,
    title: Seq<char>,
    count: nat,
    pipe: Option<Seq<char>>,
) -> Seq<char> {
    "\nline_number='"@ + dec_str(position) + "'\nxtitle='"@ + escape_quotes(title)
        + "'\nnumber_of_nodes='"@ + dec_str(count) + "'\necho \""@ + template + "\" "@
        + pipe_suffix(pipe)
}

/// Build the render command for one ordered entry.  The position each
/// command embeds is the entry's own, assigned before any reversal.
pub fn render_command(
    entry: &OrderedEntry,
    template: &str,
    count: usize,
    pipe: Option<&str>,
) -> (r: String)
    ensures
        r@ == command_text(
            template@,
            entry.position as nat,
            entry.title@,
            count as nat,
            pipe.deep_view(),
        ),
{
    let mut out = String::new();
    out.append("\nline_number='");
    let p = decimal(entry.position);
    out.append(p.as_str());
    out.append("'\nxtitle='");
    let e = escape_title(entry.title.as_str());
    out.append(e.as_str());
    out.append("'\nnumber_of_nodes='");
    let c = decimal(count);
    out.append(c.as_str());
    out.append("'\necho \"");
    out.append(template);
    out.append("\" ");
    match pipe {
        Some(f) => {
            out.append("| ");
            out.append(f);
        },
        None => {},
    }
    proof {
        assert(out@ =~= command_text(
            template@,
            entry.position as nat,
            entry.title@,
            count as nat,
            pipe.deep_view(),
        ));
    }
    out
}

/// Length of the first line of `s`: the index of the first line
/// separator, or the whole length when there is none.
pub open spec fn line_end(s: Seq<char>) -> int
    decreases s.len(),
{
    if s.len() == 0 {
        0
    } else if s[0] == '\n' {
        0
    } else {
        1 + line_end(s.drop_first())
    }
}

/// The first line of `s`, without its separator.
pub open spec fn first_line(s: Seq<char>) -> Seq<char> {
    s.subrange(0, line_end(s))
}

proof fn lemma_line_end_at(s: Seq<char>, i: int)
    requires
        0 <= i <= s.len(),
        forall|j: int| 0 <= j < i ==> s[j] != '\n',
        i < s.len() ==> s[i] == '\n',
    ensures
        line_end(s) == i,
    decreases s.len(),
{
    if s.len() > 0 && i > 0 {
        assert(forall|j: int| 0 <= j < i - 1 ==> s.drop_first()[j] == s[j + 1]);
        lemma_line_end_at(s.drop_first(), i - 1);
    }
}

/// The first line of `s`, executably: everything up to the first line
/// separator.
pub fn first_line_of(s: &str) -> (r: String)
    ensures
        r@ == first_line(s@),
{
    let n = s.unicode_len();
    let mut i: usize = 0;
    while i < n
        invariant
            n == s@.len(),
            i <= n,
            forall|j: int| 0 <= j < i ==> s@[j] != '\n',
        decreases n - i,
    {
        if s.get_char(i) == '\n' {
            proof {
                lemma_line_end_at(s@, i as int);
            }
            let r = s.substring_char(0, i);
            return r.to_owned();
        }
        i += 1;
    }
    proof {
        lemma_line_end_at(s@, n as int);
        assert(s@.subrange(0, n as int) =~= s@);
    }
    s.to_owned()
}

/// The render commands of a whole menu, one per entry in position
/// order, each binding the entry's own position and the total entry
/// count — the length of this very list.
pub fn render_commands(entries: &Vec<OrderedEntry>, template: &str, pipe: Option<&str>) -> (r: Vec<
    String,
>)
    ensures
        r@.len() == entries@.len(),
        forall|k: int|
            0 <= k < entries@.len() ==> r.deep_view()[k] == command_text(
                template@,
                entries.deep_view()[k].position as nat,
                entries.deep_view()[k].title,
                entries@.len() as nat,
                pipe.deep_view(),
            ),
{
    let count = entries.len();
    let mut out: Vec<String> = Vec::new();
    let mut i: usize = 0;
    while i < count
        invariant
            count == entries@.len(),
            i <= count,
            out@.len() == i,
            forall|k: int|
                0 <= k < i ==> out@[k]@ == command_text(
                    template@,
                    entries.deep_view()[k].position as nat,
                    entries.deep_view()[k].title,
                    count as nat,
                    pipe.deep_view(),
                ),
        decreases count - i,
    {
        out.push(render_command(&entries[i], template, count, pipe));
        i += 1;
        proof {
            assert(entries@[i - 1].deep_view() == entries.deep_view()[i - 1]);
        }
    }
    proof {
        assert forall|k: int| 0 <= k < count implies out.deep_view()[k] == out@[k]@ by {}
    }
    out
}

/// `s` split at line separators, one element per line, a trailing
/// separator ending the last line rather than opening an empty one.
pub open spec fn lines_of(s: Seq<char>) -> Seq<Seq<char>>
    decreases s.len(),
    via lines_of_decreases
{
    if s.len() == 0 {
        Seq::empty()
    } else if line_end(s) == s.len() {
        seq![s]
    } else {
        seq![first_line(s)] + lines_of(s.subrange(line_end(s) + 1, s.len() as int))
    }
}

proof fn lemma_line_end_bounds(s: Seq<char>)
    ensures
        0 <= line_end(s) <= s.len(),
    decreases s.len(),
{
    if s.len() > 0 && s[0] != '\n' {
        lemma_line_end_bounds(s.drop_first());
    }
}

#[via_fn]
proof fn lines_of_decreases(s: Seq<char>) {
    lemma_line_end_bounds(s);
}

/// Executable form of [`lines_of`]: the title resolver's raw output
/// split into one title per line.
pub fn split_lines(s: &str) -> (r: Vec<String>)
    ensures
        r.deep_view() == lines_of(s@),
{
    let n = s.unicode_len();
    let mut out: Vec<String> = Vec::new();
    let mut start: usize = 0;
    let mut i: usize = 0;
    proof {
        assert(s@.subrange(0, n as int) =~= s@);
        assert(Seq::<Seq<char>>::empty() + lines_of(s@) =~= lines_of(s@));
    }
    while i < n
        invariant
            n == s@.len(),
            start <= i <= n,
            forall|j: int| start <= j < i ==> s@[j] != '\n',
            lines_of(s@) == out.deep_view() + lines_of(s@.subrange(start as int, n as int)),
        decreases n - i,
    {
        if s.get_char(i) == '\n' {
            let ghost prev = out.deep_view();
            let piece = s.substring_char(start, i);
            out.push(piece.to_owned());
            proof {
                let rest = s@.subrange(start as int, n as int);
                assert(forall|j: int| 0 <= j < rest.len() ==> rest[j] == s@[start + j]);
                lemma_line_end_at(rest, i - start);
                assert(first_line(rest) =~= s@.subrange(start as int, i as int));
                assert(rest.subrange(line_end(rest) + 1, rest.len() as int) =~= s@.subrange(
                    i as int + 1,
                    n as int,
                ));
                assert forall|j: int| 0 <= j < out@.len() implies out.deep_view()[j] == prev.push(
                    first_line(rest),
                )[j] by {
                    assert(out.deep_view()[j] == out@[j]@);
                }
                assert(out.deep_view() =~= prev.push(first_line(rest)));
                assert(prev.push(first_line(rest)) =~= prev + seq![first_line(rest)]);
            }
            start = i + 1;
        }
        i += 1;
    }
    let ghost tail = s@.subrange(start as int, n as int);
    if start < n {
        let ghost prev = out.deep_view();
        let piece = s.substring_char(start, n);
        out.push(piece.to_owned());
        proof {
            assert(forall|j: int| 0 <= j < tail.len() ==> tail[j] == s@[start + j]);
            lemma_line_end_at(tail, n - start);
            assert(lines_of(tail) =~= seq![tail]);
            assert forall|j: int| 0 <= j < out@.len() implies out.deep_view()[j] == prev.push(
                tail,
            )[j] by {
                assert(out.deep_view()[j] == out@[j]@);
            }
            assert(out.deep_view() =~= prev.push(tail));
            assert(prev.push(tail) =~= prev + seq![tail]);
        }
    } else {
        proof {
            assert(tail.len() == 0);
            assert(out.deep_view() + lines_of(tail) =~= out.deep_view());
        }
    }
    proof {
        assert(lines_of(s@) =~= out.deep_view());
    }
    out
}

/// Judge one entry's expansion: a failed template or filter run is the
/// fatal render error; a successful one yields the menu line — the
/// first line of the output, bound to the entry's identifier.
pub fn finish_render(exit_ok: bool, output: &str, id: String) -> (r: Result<
    RenderedLine,
    PipelineError,
>)
    ensures
        !exit_ok <==> r matches Err(PipelineError::RenderFailure),
        exit_ok ==> (r matches Ok(l) && l.text@ == first_line(output@) && l.id@ == id@),
{
    if !exit_ok {
        return Err(PipelineError::RenderFailure);
    }
    let text = first_line_of(output);
    Ok(RenderedLine { text, id })
}

} // verus!
