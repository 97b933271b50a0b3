//! The ordering engine: apply one sort policy to the entry list and
//! assign each entry its display position.

use vstd::prelude::*;
use vstd::string::StrSliceExecFns;
use core::cmp::Ordering;
use itertools::Itertools;
use crate::entries::pair_entries;
use crate::entries::paired;
use crate::model::Entry;
use crate::model::EntryV;
use crate::model::PipelineError;
use crate::model::OrderedEntry;
use crate::model::OrderedEntryV;
use crate::model::SortPolicy;

verus! {

/// What `str::to_lowercase` returns for a given character sequence: a
/// function of the characters alone, left unnamed beyond that.
pub uninterp spec fn lower_of(s: Seq<char>) -> Seq<char>;

/// Relies on `str::to_lowercase`: the result depends on the characters
/// alone.
#[verifier::external_body]
fn lowercase(s: &str) -> (r: String)
    ensures
        r@ == lower_of(s@),
{
    s.to_lowercase()
}

/// Lexicographic comparison of two character sequences by code point.
pub open spec fn lex_cmp(a: Seq<char>, b: Seq<char>) -> Ordering
    decreases a.len(),
{
    if a.len() == 0 && b.len() == 0 {
        Ordering::Equal
    } else if a.len() == 0 {
        Ordering::Less
    } else if b.len() == 0 {
        Ordering::Greater
    } else if a[0] == b[0] {
        lex_cmp(a.drop_first(), b.drop_first())
    } else if (a[0] as u32) < (b[0] as u32) {
        Ordering::Less
    } else {
        Ordering::Greater
    }
}

/// Relies on `Ord::cmp` for `str`: strings compare lexicographically by
/// byte, and UTF-8 byte order coincides with code-point order.
#[verifier::external_body]
fn str_cmp(a: &str, b: &str) -> (r: Ordering)
    ensures
        r == lex_cmp(a@, b@),
{
    a.cmp(b)
}

/// `c` is a decimal digit.
pub open spec fn is_digit(c: char) -> bool {
    48 <= c as u32 <= 57
}

/// The value of one decimal digit character.
pub open spec fn digit_val(c: char) -> int
    recommends
        is_digit(c),
{
    c as u32 - 48
}

/// Ten to the `n`th.
pub open spec fn pow10(n: nat) -> int
    decreases n,
{
    if n == 0 {
        1
    } else {
        10 * pow10((n - 1) as nat)
    }
}

/// The number a digit sequence spells, most significant digit first.
pub open spec fn digits_to_int(s: Seq<char>) -> int
    decreases s.len(),
{
    if s.len() == 0 {
        0
    } else {
        digit_val(s[0]) * pow10((s.len() - 1) as nat) + digits_to_int(s.drop_first())
    }
}

/// Length of the leading run of decimal digits in `s`.
pub open spec fn digit_prefix_len(s: Seq<char>) -> int
    decreases s.len(),
{
    if s.len() == 0 || !is_digit(s[0]) {
        0
    } else {
        1 + digit_prefix_len(s.drop_first())
    }
}

/// The numeric value of an identifier text: the value its leading run
/// of decimal digits spells, zero when there is none.  The source
/// system hands identifiers out as numbers, so this is the identifier
/// value; texts without a digit head all read as zero and keep their
/// pre-sort order under the stable sort.
pub open spec fn id_value(s: Seq<char>) -> int {
    digits_to_int(s.subrange(0, digit_prefix_len(s)))
}

/// Three-way comparison of two integers.
pub open spec fn int_cmp(x: int, y: int) -> Ordering {
    if x < y {
        Ordering::Less
    } else if x > y {
        Ordering::Greater
    } else {
        Ordering::Equal
    }
}

/// The comparator each policy sorts by.  Both focus-history policies
/// tie everywhere, so under a stable sort they keep the incoming
/// most-recent-first order; Creation compares identifier values
/// ascending; Alphabetical compares lower-cased titles.
pub open spec fn policy_cmp(p: SortPolicy, a: EntryV, b: EntryV) -> Ordering {
    match p {
        SortPolicy::FocusHistory => Ordering::Equal,
        SortPolicy::FocusHistoryCurrentFirst => Ordering::Equal,
        SortPolicy::Creation => int_cmp(id_value(a.id), id_value(b.id)),
        SortPolicy::Alphabetical => lex_cmp(lower_of(a.title), lower_of(b.title)),
    }
}

/// Executable form of [`policy_cmp`].
pub fn entry_cmp(p: SortPolicy, a: &Entry, b: &Entry) -> (r: Ordering)
    ensures
        r == policy_cmp(p, a.deep_view(), b.deep_view()),
{
    match p {
        SortPolicy::FocusHistory => Ordering::Equal,
        SortPolicy::FocusHistoryCurrentFirst => Ordering::Equal,
        SortPolicy::Creation => creation_cmp(a.id.as_str(), b.id.as_str()),
        SortPolicy::Alphabetical => {
            let la = lowercase(a.title.as_str());
            let lb = lowercase(b.title.as_str());
            str_cmp(la.as_str(), lb.as_str())
        },
    }
}

/// Every character of `s` is a decimal digit.
pub open spec fn all_digits(s: Seq<char>) -> bool {
    forall|i: int| 0 <= i < s.len() ==> is_digit(#[trigger] s[i])
}

proof fn lemma_pow10_pos(n: nat)
    ensures
        pow10(n) >= 1,
    decreases n,
{
    if n > 0 {
        lemma_pow10_pos((n - 1) as nat);
    }
}

proof fn lemma_pow10_mono(m: nat, n: nat)
    requires
        m <= n,
    ensures
        pow10(m) <= pow10(n),
    decreases n,
{
    if m < n {
        lemma_pow10_mono(m, (n - 1) as nat);
        lemma_pow10_pos((n - 1) as nat);
    }
}

proof fn lemma_digits_bounds(s: Seq<char>)
    requires
        all_digits(s),
    ensures
        0 <= digits_to_int(s) < pow10(s.len() as nat),
    decreases s.len(),
{
    if s.len() == 0 {
    } else {
        let tail = s.drop_first();
        assert(all_digits(tail)) by {
            assert(forall|i: int| 0 <= i < tail.len() ==> tail[i] == s[i + 1]);
        }
        lemma_digits_bounds(tail);
        let d = digit_val(s[0]);
        let p = pow10((s.len() - 1) as nat);
        lemma_pow10_pos((s.len() - 1) as nat);
        assert(0 <= d <= 9);
        assert(0 <= d * p <= 9 * p) by (nonlinear_arith)
            requires
                0 <= d <= 9,
                p >= 1,
        ;
        assert(pow10(s.len() as nat) == 10 * p);
    }
}

proof fn lemma_digits_lower(s: Seq<char>)
    requires
        all_digits(s),
        s.len() > 0,
        s[0] != '0',
    ensures
        digits_to_int(s) >= pow10((s.len() - 1) as nat),
{
    let tail = s.drop_first();
    assert(all_digits(tail)) by {
        assert(forall|i: int| 0 <= i < tail.len() ==> tail[i] == s[i + 1]);
    }
    lemma_digits_bounds(tail);
    vstd::utf8::char_u32_cast(s[0], s[0] as u32);
    vstd::utf8::char_u32_cast('0', '0' as u32);
    assert(digit_val(s[0]) >= 1);
    let d = digit_val(s[0]);
    let p = pow10((s.len() - 1) as nat);
    lemma_pow10_pos((s.len() - 1) as nat);
    assert(d * p >= p) by (nonlinear_arith)
        requires
            d >= 1,
            p >= 1,
    ;
}

proof fn lemma_eq_len_digit_cmp(s1: Seq<char>, s2: Seq<char>)
    requires
        all_digits(s1),
        all_digits(s2),
        s1.len() == s2.len(),
    ensures
        int_cmp(digits_to_int(s1), digits_to_int(s2)) == lex_cmp(s1, s2),
    decreases s1.len(),
{
    if s1.len() == 0 {
    } else {
        let t1 = s1.drop_first();
        let t2 = s2.drop_first();
        assert(all_digits(t1) && all_digits(t2)) by {
            assert(forall|i: int| 0 <= i < t1.len() ==> t1[i] == s1[i + 1]);
            assert(forall|i: int| 0 <= i < t2.len() ==> t2[i] == s2[i + 1]);
        }
        let p = pow10((s1.len() - 1) as nat);
        let d1 = digit_val(s1[0]);
        let d2 = digit_val(s2[0]);
        if s1[0] == s2[0] {
            lemma_eq_len_digit_cmp(t1, t2);
        } else {
            vstd::utf8::char_u32_cast(s1[0], s1[0] as u32);
            vstd::utf8::char_u32_cast(s2[0], s2[0] as u32);
            lemma_digits_bounds(t1);
            lemma_digits_bounds(t2);
            if d1 < d2 {
                assert((d1 + 1) * p <= d2 * p && d1 * p + p == (d1 + 1) * p) by (nonlinear_arith)
                    requires
                        d1 + 1 <= d2,
                        p >= 0,
                ;
            } else {
                assert((d2 + 1) * p <= d1 * p && d2 * p + p == (d2 + 1) * p) by (nonlinear_arith)
                    requires
                        d2 + 1 <= d1,
                        p >= 0,
                ;
            }
        }
    }
}

proof fn lemma_len_digit_cmp(s1: Seq<char>, s2: Seq<char>)
    requires
        all_digits(s1),
        all_digits(s2),
        s2.len() > 0,
        s2[0] != '0',
        s1.len() < s2.len(),
    ensures
        digits_to_int(s1) < digits_to_int(s2),
{
    lemma_digits_bounds(s1);
    lemma_digits_lower(s2);
    lemma_pow10_mono(s1.len() as nat, (s2.len() - 1) as nat);
}

proof fn lemma_strip_zeros(s: Seq<char>, z: int)
    requires
        0 <= z <= s.len(),
        forall|i: int| 0 <= i < z ==> s[i] == '0',
    ensures
        digits_to_int(s) == digits_to_int(s.subrange(z, s.len() as int)),
    decreases z,
{
    if z == 0 {
        assert(s.subrange(0, s.len() as int) =~= s);
    } else {
        vstd::utf8::char_u32_cast('0', '0' as u32);
        assert(digit_val(s[0]) == 0);
        let tail = s.drop_first();
        assert(forall|i: int| 0 <= i < z - 1 ==> tail[i] == s[i + 1]);
        lemma_strip_zeros(tail, z - 1);
        assert(tail.subrange(z - 1, tail.len() as int) =~= s.subrange(z, s.len() as int));
        assert(digit_val(s[0]) * pow10((s.len() - 1) as nat) == 0);
    }
}

proof fn lemma_digit_prefix_at(s: Seq<char>, i: int)
    requires
        0 <= i <= s.len(),
        forall|j: int| 0 <= j < i ==> is_digit(#[trigger] s[j]),
        i < s.len() ==> !is_digit(s[i]),
    ensures
        digit_prefix_len(s) == i,
    decreases s.len(),
{
    if s.len() > 0 && i > 0 {
        assert(forall|j: int| 0 <= j < s.drop_first().len() ==> s.drop_first()[j] == s[j + 1]);
        lemma_digit_prefix_at(s.drop_first(), i - 1);
    }
}

/// The leading digit run of `s`: `r.1` is its end, `r.0` the start of
/// the run with its leading zeros skipped, so the text between the two
/// spells the identifier value without leading zeros.
fn digit_run(s: &str) -> (r: (usize, usize))
    ensures
        r.0 <= r.1 <= s@.len(),
        r.1 as int == digit_prefix_len(s@),
        forall|j: int| r.0 <= j < r.1 ==> is_digit(#[trigger] s@[j]),
        r.0 < r.1 ==> s@[r.0 as int] != '0',
        digits_to_int(s@.subrange(r.0 as int, r.1 as int)) == id_value(s@),
{
    let n = s.unicode_len();
    let mut e: usize = 0;
    while e < n
        invariant
            n == s@.len(),
            e <= n,
            forall|j: int| 0 <= j < e ==> is_digit(#[trigger] s@[j]),
        ensures
            n == s@.len(),
            e <= n,
            forall|j: int| 0 <= j < e ==> is_digit(#[trigger] s@[j]),
            e < n ==> !is_digit(s@[e as int]),
        decreases n - e,
    {
        let u = s.get_char(e) as u32;
        if u < 48 || u > 57 {
            break ;
        }
        e += 1;
    }
    proof {
        lemma_digit_prefix_at(s@, e as int);
    }
    let mut z: usize = 0;
    while z < e
        invariant
            e <= s@.len(),
            z <= e,
            forall|j: int| 0 <= j < z ==> s@[j] == '0',
        ensures
            z <= e,
            forall|j: int| 0 <= j < z ==> s@[j] == '0',
            z < e ==> s@[z as int] != '0',
        decreases e - z,
    {
        if s.get_char(z) != '0' {
            break ;
        }
        z += 1;
    }
    proof {
        let run = s@.subrange(0, e as int);
        assert(forall|j: int| 0 <= j < run.len() ==> run[j] == s@[j]);
        lemma_strip_zeros(run, z as int);
        assert(run.subrange(z as int, run.len() as int) =~= s@.subrange(z as int, e as int));
    }
    (z, e)
}

/// Compare two identifier texts by the values they spell: the shorter
/// zero-stripped digit run is the smaller number, and equally long runs
/// compare digit by digit.
fn creation_cmp(a: &str, b: &str) -> (r: Ordering)
    ensures
        r == int_cmp(id_value(a@), id_value(b@)),
{
    let (za, ea) = digit_run(a);
    let (zb, eb) = digit_run(b);
    let ghost ta = a@.subrange(za as int, ea as int);
    let ghost tb = b@.subrange(zb as int, eb as int);
    proof {
        assert(forall|j: int| 0 <= j < ta.len() ==> ta[j] == a@[za + j]);
        assert(forall|j: int| 0 <= j < tb.len() ==> tb[j] == b@[zb + j]);
        assert(all_digits(ta) && all_digits(tb));
    }
    let la = ea - za;
    let lb = eb - zb;
    if la < lb {
        proof {
            lemma_len_digit_cmp(ta, tb);
        }
        Ordering::Less
    } else if lb < la {
        proof {
            lemma_len_digit_cmp(tb, ta);
        }
        Ordering::Greater
    } else {
        proof {
            lemma_eq_len_digit_cmp(ta, tb);
        }
        str_cmp(a.substring_char(za, ea), b.substring_char(zb, eb))
    }
}

/// `e` inserted into `s` in front of the first element it does not
/// compare `Greater` than, so in front of any element it ties with.
/// [`stable_sort`] inserts earlier input entries later, so among ties
/// the earlier input entry ends up first: the sort is stable.
pub open spec fn sorted_insert(p: SortPolicy, e: EntryV, s: Seq<EntryV>) -> Seq<EntryV>
    decreases s.len(),
{
    if s.len() == 0 {
        seq![e]
    } else if policy_cmp(p, e, s[0]) != Ordering::Greater {
        seq![e] + s
    } else {
        seq![s[0]] + sorted_insert(p, e, s.drop_first())
    }
}

/// The stable sort of `s` by the policy comparator: insertion sort,
/// which keeps tied elements in their original relative order.
pub open spec fn stable_sort(p: SortPolicy, s: Seq<EntryV>) -> Seq<EntryV>
    decreases s.len(),
{
    if s.len() == 0 {
        s
    } else {
        sorted_insert(p, s[0], stable_sort(p, s.drop_first()))
    }
}

/// Law: both focus-history policies leave the order exactly as it
/// stands: their comparator ties everywhere, and a stable sort of
/// all-tied elements is the identity.
pub proof fn lemma_focus_policies_keep_order(p: SortPolicy, s: Seq<EntryV>)
    requires
        p is FocusHistory || p is FocusHistoryCurrentFirst,
    ensures
        stable_sort(p, s) == s,
    decreases s.len(),
{
    if s.len() > 0 {
        lemma_focus_policies_keep_order(p, s.drop_first());
        assert(stable_sort(p, s) =~= s);
    }
}

proof fn lemma_lex_cmp_equal_iff(a: Seq<char>, b: Seq<char>)
    ensures
        (lex_cmp(a, b) == Ordering::Equal) <==> (a == b),
    decreases a.len(),
{
    if a.len() == 0 && b.len() == 0 {
        assert(a =~= b);
    } else if a.len() > 0 && b.len() > 0 {
        if a[0] == b[0] {
            lemma_lex_cmp_equal_iff(a.drop_first(), b.drop_first());
            if a.drop_first() == b.drop_first() {
                assert(a.len() == b.len()) by {
                    assert(a.drop_first().len() == b.drop_first().len());
                }
                assert forall|i: int| 0 <= i < a.len() implies a[i] == b[i] by {
                    if i > 0 {
                        assert(a.drop_first()[i - 1] == b.drop_first()[i - 1]);
                    }
                }
                assert(a =~= b);
            }
            if a == b {
                assert(a.drop_first() =~= b.drop_first());
            }
        }
    }
}

/// Entries whose sort key ties with the key of `e`.
pub open spec fn ties_with(p: SortPolicy, e: EntryV) -> spec_fn(EntryV) -> bool {
    |z: EntryV| policy_cmp(p, z, e) == Ordering::Equal
}

proof fn lemma_policy_tie(p: SortPolicy, x: EntryV, y: EntryV, e: EntryV)
    requires
        policy_cmp(p, x, e) == Ordering::Equal,
        policy_cmp(p, y, e) == Ordering::Equal,
    ensures
        policy_cmp(p, y, x) == Ordering::Equal,
{
    if p is Alphabetical {
        lemma_lex_cmp_equal_iff(lower_of(x.title), lower_of(e.title));
        lemma_lex_cmp_equal_iff(lower_of(y.title), lower_of(e.title));
        lemma_lex_cmp_equal_iff(lower_of(y.title), lower_of(x.title));
    }
}

proof fn lemma_policy_flip(p: SortPolicy, a: EntryV, b: EntryV)
    ensures
        (policy_cmp(p, a, b) == Ordering::Greater) <==> (policy_cmp(p, b, a) == Ordering::Less),
{
    if p is Alphabetical {
        lemma_lex_cmp_flip(lower_of(a.title), lower_of(b.title));
    }
}

proof fn lemma_policy_le_trans(p: SortPolicy, a: EntryV, b: EntryV, c: EntryV)
    requires
        policy_cmp(p, a, b) != Ordering::Greater,
        policy_cmp(p, b, c) != Ordering::Greater,
    ensures
        policy_cmp(p, a, c) != Ordering::Greater,
{
    if p is Alphabetical {
        lemma_lex_cmp_trans(lower_of(a.title), lower_of(b.title), lower_of(c.title));
    }
}

proof fn lemma_filter_singleton(x: EntryV, pred: spec_fn(EntryV) -> bool)
    ensures
        seq![x].filter(pred) == if pred(x) {
            seq![x]
        } else {
            Seq::<EntryV>::empty()
        },
{
    reveal_with_fuel(Seq::<_>::filter, 2);
    assert(seq![x].drop_last() =~= Seq::<EntryV>::empty());
    assert(seq![x].last() == x);
    assert(Seq::<EntryV>::empty().push(x) =~= seq![x]);
}

proof fn lemma_insert_keeps_ties(p: SortPolicy, y: EntryV, t: Seq<EntryV>, e: EntryV)
    ensures
        sorted_insert(p, y, t).filter(ties_with(p, e)) == if ties_with(p, e)(y) {
            seq![y] + t.filter(ties_with(p, e))
        } else {
            t.filter(ties_with(p, e))
        },
    decreases t.len(),
{
    broadcast use Seq::filter_distributes_over_add;

    let pred = ties_with(p, e);
    lemma_filter_singleton(y, pred);
    if t.len() == 0 {
        reveal(Seq::filter);
        if pred(y) {
            assert(seq![y] + t.filter(pred) =~= seq![y]);
        }
    } else if policy_cmp(p, y, t[0]) != Ordering::Greater {
        assert(sorted_insert(p, y, t) == seq![y] + t);
        if !pred(y) {
            assert(Seq::<EntryV>::empty() + t.filter(pred) =~= t.filter(pred));
        }
    } else {
        let rest = sorted_insert(p, y, t.drop_first());
        assert(sorted_insert(p, y, t) == seq![t[0]] + rest);
        lemma_insert_keeps_ties(p, y, t.drop_first(), e);
        lemma_filter_singleton(t[0], pred);
        assert(t =~= seq![t[0]] + t.drop_first());
        assert(t.filter(pred) == seq![t[0]].filter(pred) + t.drop_first().filter(pred));
        if pred(y) {
            // y compares Greater than t[0], so t[0] cannot tie with e:
            // tying keys are equal, and equal keys compare Equal.
            if pred(t[0]) {
                lemma_policy_tie(p, t[0], y, e);
            }
            assert(!pred(t[0]));
            assert(seq![t[0]].filter(pred) + (seq![y] + t.drop_first().filter(pred)) =~= seq![y]
                + (seq![t[0]].filter(pred) + t.drop_first().filter(pred)));
        }
    }
}

/// Law: every policy sorts stably: for any reference entry, the
/// subsequence of entries whose sort key ties with it is the same, in
/// the same relative order, before and after the sort.  In particular,
/// alphabetical entries whose lower-cased titles coincide keep their
/// pre-sort order.
pub proof fn lemma_stable_sort_keeps_ties(p: SortPolicy, s: Seq<EntryV>, e: EntryV)
    ensures
        stable_sort(p, s).filter(ties_with(p, e)) == s.filter(ties_with(p, e)),
    decreases s.len(),
{
    broadcast use Seq::filter_distributes_over_add;

    let pred = ties_with(p, e);
    if s.len() > 0 {
        lemma_stable_sort_keeps_ties(p, s.drop_first(), e);
        lemma_insert_keeps_ties(p, s[0], stable_sort(p, s.drop_first()), e);
        lemma_filter_singleton(s[0], pred);
        assert(s =~= seq![s[0]] + s.drop_first());
        assert(s.filter(pred) == seq![s[0]].filter(pred) + s.drop_first().filter(pred));
        if !pred(s[0]) {
            assert(Seq::<EntryV>::empty() + s.drop_first().filter(pred) =~= s.drop_first().filter(
                pred,
            ));
        }
    }
}

/// The policy-ordered entry sequence: the stable sort, with the single
/// most recent entry rotated to the end under `FocusHistory`.
pub open spec fn ordered_view(p: SortPolicy, entries: Seq<EntryV>) -> Seq<EntryV> {
    let sorted = stable_sort(p, entries);
    if p is FocusHistory && sorted.len() > 0 {
        sorted.drop_first().push(sorted[0])
    } else {
        sorted
    }
}

/// `a` compares at or below `b`: the sort's "in order" relation.
pub open spec fn cmp_le(p: SortPolicy, a: EntryV, b: EntryV) -> bool {
    policy_cmp(p, a, b) != Ordering::Greater
}

proof fn lemma_lex_cmp_flip(a: Seq<char>, b: Seq<char>)
    ensures
        (lex_cmp(a, b) == Ordering::Greater) <==> (lex_cmp(b, a) == Ordering::Less),
    decreases a.len(),
{
    if a.len() > 0 && b.len() > 0 {
        vstd::utf8::char_u32_cast(a[0], a[0] as u32);
        vstd::utf8::char_u32_cast(b[0], b[0] as u32);
        if a[0] == b[0] {
            lemma_lex_cmp_flip(a.drop_first(), b.drop_first());
        }
    }
}

proof fn lemma_lex_cmp_trans(a: Seq<char>, b: Seq<char>, c: Seq<char>)
    requires
        lex_cmp(a, b) != Ordering::Greater,
        lex_cmp(b, c) != Ordering::Greater,
    ensures
        lex_cmp(a, c) != Ordering::Greater,
    decreases a.len(),
{
    if a.len() > 0 && b.len() > 0 && c.len() > 0 {
        vstd::utf8::char_u32_cast(a[0], a[0] as u32);
        vstd::utf8::char_u32_cast(b[0], b[0] as u32);
        vstd::utf8::char_u32_cast(c[0], c[0] as u32);
        if a[0] == b[0] && b[0] == c[0] {
            lemma_lex_cmp_trans(a.drop_first(), b.drop_first(), c.drop_first());
        }
    }
}

proof fn lemma_insert_sorted(p: SortPolicy, y: EntryV, t: Seq<EntryV>)
    requires
        forall|i: int, j: int|
            0 <= i < j < t.len() ==> cmp_le(p, #[trigger] t[i], #[trigger] t[j]),
    ensures
        forall|i: int, j: int|
            0 <= i < j < sorted_insert(p, y, t).len() ==> cmp_le(
                p,
                #[trigger] sorted_insert(p, y, t)[i],
                #[trigger] sorted_insert(p, y, t)[j],
            ),
        forall|k: int|
            0 <= k < sorted_insert(p, y, t).len() ==> (#[trigger] sorted_insert(p, y, t)[k] == y
                || t.contains(sorted_insert(p, y, t)[k])),
    decreases t.len(),
{
    let out = sorted_insert(p, y, t);
    if t.len() == 0 {
    } else if policy_cmp(p, y, t[0]) != Ordering::Greater {
        assert(out == seq![y] + t);
        assert forall|i: int, j: int| 0 <= i < j < out.len() implies cmp_le(
            p,
            #[trigger] out[i],
            #[trigger] out[j],
        ) by {
            if i == 0 && j > 1 {
                lemma_policy_le_trans(p, y, t[0], t[j - 1]);
            }
        }
        assert forall|k: int| 0 <= k < out.len() implies (#[trigger] out[k] == y || t.contains(
            out[k],
        )) by {
            if k > 0 {
                assert(out[k] == t[k - 1]);
            }
        }
    } else {
        let tail = t.drop_first();
        assert(forall|i: int, j: int|
            0 <= i < j < tail.len() ==> cmp_le(p, #[trigger] tail[i], #[trigger] tail[j])) by {
            assert(forall|k: int| 0 <= k < tail.len() ==> tail[k] == t[k + 1]);
        }
        lemma_insert_sorted(p, y, tail);
        let rest = sorted_insert(p, y, tail);
        assert(out == seq![t[0]] + rest);
        assert forall|k: int| 0 <= k < out.len() implies (#[trigger] out[k] == y || t.contains(
            out[k],
        )) by {
            if k > 0 {
                assert(out[k] == rest[k - 1]);
                if rest[k - 1] != y {
                    let m = choose|m: int| 0 <= m < tail.len() && tail[m] == rest[k - 1];
                    assert(t[m + 1] == tail[m]);
                }
            } else {
                assert(t.contains(t[0]));
            }
        }
        assert forall|i: int, j: int| 0 <= i < j < out.len() implies cmp_le(
            p,
            #[trigger] out[i],
            #[trigger] out[j],
        ) by {
            if i == 0 {
                assert(out[j] == rest[j - 1]);
                if rest[j - 1] == y {
                    lemma_policy_flip(p, y, t[0]);
                } else {
                    let m = choose|m: int| 0 <= m < tail.len() && tail[m] == rest[j - 1];
                    if m > 0 {
                        assert(cmp_le(p, t[0], tail[m])) by {
                            assert(tail[m] == t[m + 1]);
                        }
                    } else {
                        assert(tail[0] == t[1]);
                    }
                }
            } else {
                assert(out[i] == rest[i - 1] && out[j] == rest[j - 1]);
            }
        }
    }
}

/// Law: the stable sort's output is sorted by the policy comparator: no
/// entry compares above a later one.
pub proof fn lemma_stable_sort_sorted(p: SortPolicy, s: Seq<EntryV>)
    ensures
        forall|i: int, j: int|
            0 <= i < j < stable_sort(p, s).len() ==> cmp_le(
                p,
                #[trigger] stable_sort(p, s)[i],
                #[trigger] stable_sort(p, s)[j],
            ),
    decreases s.len(),
{
    if s.len() > 0 {
        lemma_stable_sort_sorted(p, s.drop_first());
        lemma_insert_sorted(p, s[0], stable_sort(p, s.drop_first()));
    }
}

/// Law: under `FocusHistory` the ordered sequence is exactly the
/// incoming most-recent-first sequence with its first entry — the most
/// recently focused one — moved to the end; under
/// `FocusHistoryCurrentFirst` it is the incoming sequence unchanged.
pub proof fn lemma_focus_history_rotation(s: Seq<EntryV>)
    ensures
        s.len() > 0 ==> ordered_view(SortPolicy::FocusHistory, s) == s.drop_first().push(s[0]),
        ordered_view(SortPolicy::FocusHistoryCurrentFirst, s) == s,
{
    lemma_focus_policies_keep_order(SortPolicy::FocusHistory, s);
    lemma_focus_policies_keep_order(SortPolicy::FocusHistoryCurrentFirst, s);
}

/// `s` with each entry given its index as display position.
pub open spec fn numbered(s: Seq<EntryV>) -> Seq<OrderedEntryV> {
    Seq::new(s.len(), |i: int| OrderedEntryV { position: i, id: s[i].id, title: s[i].title })
}

/// The whole ordering stage in one step: pair identifiers with titles,
/// then order and number the entries.  On a title-count mismatch no
/// menu is produced at all, so the picker is never reached.
pub fn menu_entries(ids: &Vec<String>, titles: &Vec<String>, policy: SortPolicy) -> (r: Result<
    Vec<OrderedEntry>,
    PipelineError,
>)
    ensures
        ids@.len() != titles@.len() <==> r matches Err(PipelineError::ResolutionMismatch),
        ids@.len() == titles@.len() ==> (r matches Ok(es) && es.deep_view() == numbered(
            ordered_view(policy, paired(ids.deep_view(), titles.deep_view())),
        )),
{
    let entries = match pair_entries(ids, titles) {
        Ok(es) => es,
        Err(e) => {
            return Err(e);
        },
    };
    Ok(order_entries(entries, policy))
}

/// Relies on itertools' `sorted_by`, which collects and runs the
/// standard library's `sort_by`: a stable sort, so the result is exactly
/// the stable sort of the input by the given comparator.
#[verifier::external_body]
fn sort_entries(v: Vec<Entry>, policy: SortPolicy) -> (r: Vec<Entry>)
    ensures
        r.deep_view() == stable_sort(policy, v.deep_view()),
{
    v.into_iter().sorted_by(|a, b| entry_cmp(policy, a, b)).collect()
}

/// Order the entries by the policy and assign dense zero-based
/// positions.  Positions are fixed here, before any display-order
/// reversal, so they are independent of the reverse flag.
pub fn order_entries(entries: Vec<Entry>, policy: SortPolicy) -> (r: Vec<OrderedEntry>)
    ensures
        r.deep_view() == numbered(ordered_view(policy, entries.deep_view())),
{
    let ghost input = entries.deep_view();
    let mut sorted = sort_entries(entries, policy);
    match policy {
        SortPolicy::FocusHistory => {
            if sorted.len() > 0 {
                let first = sorted.remove(0);
                sorted.push(first);
                proof {
                    let pre = stable_sort(policy, input);
                    assert(sorted.deep_view() =~= pre.drop_first().push(pre[0]));
                }
            }
        },
        _ => {},
    }
    proof {
        assert(sorted.deep_view() =~= ordered_view(policy, input));
    }
    let n = sorted.len();
    let mut out: Vec<OrderedEntry> = Vec::new();
    let mut i: usize = 0;
    while i < n
        invariant
            n == sorted@.len(),
            i <= n,
            out@.len() == i,
            sorted.deep_view() == ordered_view(policy, input),
            forall|j: int| 0 <= j < i ==> out@[j].deep_view() == numbered(sorted.deep_view())[j],
        decreases n - i,
    {
        out.push(
            OrderedEntry { position: i, id: sorted[i].id.clone(), title: sorted[i].title.clone() },
        );
        i += 1;
        proof {
            assert(out@[i - 1].deep_view() == numbered(sorted.deep_view())[i - 1]);
        }
    }
    proof {
        assert forall|j: int| 0 <= j < n implies out.deep_view()[j] == numbered(
            ordered_view(policy, input),
        )[j] by {
            assert(out.deep_view()[j] == out@[j].deep_view());
        }
        assert(out.deep_view() =~= numbered(ordered_view(policy, input)));
    }
    out
}

} // verus!
