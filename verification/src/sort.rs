//! The sort orders a listing can be rendered in: plain lexicographic,
//! case-insensitive lexicographic (the default), and modification time,
//! newest first. All three are stable insertion sorts, specified by one
//! shared insertion function on sequences.

use vstd::prelude::*;
use crate::text::{
    lex_le, str_lex_le, fold_of, fold_case, lemma_lex_le_refl, lemma_lex_le_total,
    lemma_lex_le_trans,
};

verus! {

/// Non-strict order holds between every ordered pair of positions.
pub open spec fn sorted_by<A>(leq: spec_fn(A, A) -> bool, s: Seq<A>) -> bool {
    forall|i: int, j: int| 0 <= i < j < s.len() ==> leq(s[i], s[j])
}

/// Any two values are comparable.
pub open spec fn total_on<A>(leq: spec_fn(A, A) -> bool) -> bool {
    forall|a: A, b: A| #[trigger] leq(a, b) || #[trigger] leq(b, a)
}

pub open spec fn transitive_on<A>(leq: spec_fn(A, A) -> bool) -> bool {
    forall|a: A, b: A, c: A| #[trigger] leq(a, b) && #[trigger] leq(b, c) ==> leq(a, c)
}

/// Stable insertion of `x` into `s`: `x` lands after every element that
/// compares `leq` to it, so an equal element already present stays in front.
pub open spec fn spec_insert<A>(leq: spec_fn(A, A) -> bool, s: Seq<A>, x: A) -> Seq<A>
    decreases s.len(),
{
    if s.len() == 0 {
        seq![x]
    } else if leq(s.last(), x) {
        s.push(x)
    } else {
        spec_insert(leq, s.drop_last(), x).push(s.last())
    }
}

/// Stable insertion sort: insert the elements one by one, left to right.
pub open spec fn spec_sort_by<A>(leq: spec_fn(A, A) -> bool, s: Seq<A>) -> Seq<A>
    decreases s.len(),
{
    if s.len() == 0 {
        Seq::empty()
    } else {
        spec_insert(leq, spec_sort_by(leq, s.drop_last()), s.last())
    }
}

pub proof fn lemma_insert_len<A>(leq: spec_fn(A, A) -> bool, s: Seq<A>, x: A)
    ensures
        spec_insert(leq, s, x).len() == s.len() + 1,
    decreases s.len(),
{
    if s.len() > 0 && !leq(s.last(), x) {
        lemma_insert_len(leq, s.drop_last(), x);
    }
}

/// Insertion adds exactly `x` to the multiset of elements.
pub proof fn lemma_insert_multiset<A>(leq: spec_fn(A, A) -> bool, s: Seq<A>, x: A)
    ensures
        spec_insert(leq, s, x).to_multiset() == s.to_multiset().insert(x),
    decreases s.len(),
{
    broadcast use vstd::seq_lib::group_to_multiset_ensures;

    if s.len() == 0 {
        assert(seq![x] =~= s.push(x));
    } else if leq(s.last(), x) {
    } else {
        lemma_insert_multiset(leq, s.drop_last(), x);
        assert(s =~= s.drop_last().push(s.last()));
        assert(s.to_multiset() == s.drop_last().to_multiset().insert(s.last()));
        assert(spec_insert(leq, s, x).to_multiset() == s.drop_last().to_multiset().insert(x).insert(
        s.last()));
        assert(s.drop_last().to_multiset().insert(x).insert(s.last())
            =~= s.drop_last().to_multiset().insert(s.last()).insert(x));
    }
}

/// Every element of the insertion result is `x` or came from `s`.
pub proof fn lemma_insert_membership<A>(leq: spec_fn(A, A) -> bool, s: Seq<A>, x: A)
    ensures
        forall|i: int|
            0 <= i < spec_insert(leq, s, x).len() ==> #[trigger] spec_insert(leq, s, x)[i] == x
                || s.contains(spec_insert(leq, s, x)[i]),
{
    broadcast use vstd::seq_lib::group_to_multiset_ensures;

    lemma_insert_multiset(leq, s, x);
    let r = spec_insert(leq, s, x);
    assert forall|i: int| 0 <= i < r.len() implies #[trigger] r[i] == x || s.contains(r[i]) by {
        assert(r.contains(r[i]));
        assert(r.to_multiset().count(r[i]) > 0);
        if r[i] != x {
            assert(s.to_multiset().count(r[i]) > 0);
        }
    }
}

/// Inserting into a sorted sequence keeps it sorted.
pub proof fn lemma_insert_sorted<A>(leq: spec_fn(A, A) -> bool, s: Seq<A>, x: A)
    requires
        total_on(leq),
        transitive_on(leq),
        sorted_by(leq, s),
    ensures
        sorted_by(leq, spec_insert(leq, s, x)),
    decreases s.len(),
{
    lemma_insert_len(leq, s, x);
    let r = spec_insert(leq, s, x);
    if s.len() == 0 {
    } else if leq(s.last(), x) {
        assert forall|i: int, j: int| 0 <= i < j < r.len() implies leq(r[i], r[j]) by {
            if j == s.len() {
                if i < s.len() - 1 {
                    assert(leq(s[i], s.last()));
                }
            }
        }
    } else {
        assert(leq(x, s.last()));
        assert(sorted_by(leq, s.drop_last()));
        lemma_insert_sorted(leq, s.drop_last(), x);
        lemma_insert_membership(leq, s.drop_last(), x);
        let ins = spec_insert(leq, s.drop_last(), x);
        lemma_insert_len(leq, s.drop_last(), x);
        assert forall|i: int, j: int| 0 <= i < j < r.len() implies leq(r[i], r[j]) by {
            if j == r.len() - 1 {
                assert(r[j] == s.last());
                assert(r[i] == ins[i]);
                if ins[i] == x {
                } else {
                    let w = choose|w: int| 0 <= w < s.drop_last().len() && s.drop_last()[w] == ins[
                    i];
                    assert(s[w] == ins[i]);
                    if w < s.len() - 1 {
                        assert(leq(s[w], s.last()));
                    }
                }
            }
        }
    }
}

/// What filtering does to one push.
pub proof fn lemma_filter_push<A>(s: Seq<A>, p: spec_fn(A) -> bool, x: A)
    ensures
        s.push(x).filter(p) == s.filter(p) + (if p(x) {
            seq![x]
        } else {
            Seq::empty()
        }),
{
    reveal(Seq::filter);
    assert(s.push(x).drop_last() =~= s);
    if p(x) {
        assert(s.push(x).filter(p) =~= s.filter(p) + seq![x]);
    } else {
        assert(s.push(x).filter(p) =~= s.filter(p) + Seq::<A>::empty());
    }
}

/// Insertion seen through a filter that only holds on one equivalence
/// class of the order: the class's members keep their relative order, with
/// `x` appended at the end when it belongs to the class.
pub proof fn lemma_insert_filter<A>(
    leq: spec_fn(A, A) -> bool,
    p: spec_fn(A) -> bool,
    s: Seq<A>,
    x: A,
)
    requires
        forall|a: A, b: A| #[trigger] p(a) && #[trigger] p(b) ==> leq(a, b),
    ensures
        spec_insert(leq, s, x).filter(p) == s.filter(p) + (if p(x) {
            seq![x]
        } else {
            Seq::empty()
        }),
    decreases s.len(),
{
    reveal(Seq::filter);
    if s.len() == 0 {
        assert(seq![x] =~= Seq::<A>::empty().push(x));
        lemma_filter_push(Seq::<A>::empty(), p, x);
        assert(Seq::<A>::empty().filter(p) =~= Seq::<A>::empty());
        assert(s.filter(p) =~= Seq::<A>::empty());
    } else if leq(s.last(), x) {
        lemma_filter_push(s, p, x);
    } else {
        let last = s.last();
        let dl = s.drop_last();
        lemma_insert_filter(leq, p, dl, x);
        lemma_filter_push(spec_insert(leq, dl, x), p, last);
        assert(s =~= dl.push(last));
        lemma_filter_push(dl, p, last);
        if p(x) && p(last) {
            assert(leq(last, x));
            assert(false);
        } else if p(x) {
            assert(spec_insert(leq, s, x).filter(p) =~= dl.filter(p) + seq![x]);
            assert(s.filter(p) =~= dl.filter(p));
        } else {
            assert(spec_insert(leq, s, x).filter(p) =~= s.filter(p));
            assert(spec_insert(leq, s, x).filter(p) =~= s.filter(p) + Seq::<A>::empty());
        }
    }
}

pub proof fn lemma_sort_len<A>(leq: spec_fn(A, A) -> bool, s: Seq<A>)
    ensures
        spec_sort_by(leq, s).len() == s.len(),
    decreases s.len(),
{
    if s.len() > 0 {
        lemma_sort_len(leq, s.drop_last());
        lemma_insert_len(leq, spec_sort_by(leq, s.drop_last()), s.last());
    }
}

/// The sort output is ordered.
pub proof fn lemma_sort_sorted<A>(leq: spec_fn(A, A) -> bool, s: Seq<A>)
    requires
        total_on(leq),
        transitive_on(leq),
    ensures
        sorted_by(leq, spec_sort_by(leq, s)),
    decreases s.len(),
{
    if s.len() > 0 {
        lemma_sort_sorted(leq, s.drop_last());
        lemma_insert_sorted(leq, spec_sort_by(leq, s.drop_last()), s.last());
    }
}

/// The sort output is a permutation of the input.
pub proof fn lemma_sort_multiset<A>(leq: spec_fn(A, A) -> bool, s: Seq<A>)
    ensures
        spec_sort_by(leq, s).to_multiset() == s.to_multiset(),
    decreases s.len(),
{
    broadcast use vstd::seq_lib::group_to_multiset_ensures;

    if s.len() > 0 {
        lemma_sort_multiset(leq, s.drop_last());
        lemma_insert_multiset(leq, spec_sort_by(leq, s.drop_last()), s.last());
        assert(s =~= s.drop_last().push(s.last()));
        assert(s.to_multiset() == s.drop_last().to_multiset().insert(s.last()));
    }
}

/// Stability: the sort does not disturb the relative order within an
/// equivalence class of the order.
pub proof fn lemma_sort_filter<A>(leq: spec_fn(A, A) -> bool, p: spec_fn(A) -> bool, s: Seq<A>)
    requires
        forall|a: A, b: A| #[trigger] p(a) && #[trigger] p(b) ==> leq(a, b),
    ensures
        spec_sort_by(leq, s).filter(p) == s.filter(p),
    decreases s.len(),
{
    reveal(Seq::filter);
    if s.len() == 0 {
    } else {
        lemma_sort_filter(leq, p, s.drop_last());
        lemma_insert_filter(leq, p, spec_sort_by(leq, s.drop_last()), s.last());
        assert(s =~= s.drop_last().push(s.last()));
        lemma_filter_push(s.drop_last(), p, s.last());
        if p(s.last()) {
            assert(spec_sort_by(leq, s).filter(p) =~= s.drop_last().filter(p) + seq![s.last()]);
        } else {
            assert(spec_sort_by(leq, s).filter(p) =~= s.drop_last().filter(p));
        }
    }
}

/// Where the insertion lands, described by a boundary position: before it
/// everything compares `leq x`, from it on nothing does.
pub proof fn lemma_insert_position<A>(leq: spec_fn(A, A) -> bool, s: Seq<A>, x: A, j: int)
    requires
        0 <= j <= s.len(),
        forall|i: int| 0 <= i < j ==> leq(#[trigger] s[i], x),
        forall|i: int| j <= i < s.len() ==> !leq(#[trigger] s[i], x),
    ensures
        spec_insert(leq, s, x) == s.take(j) + seq![x] + s.skip(j),
    decreases s.len(),
{
    if j == s.len() {
        if s.len() == 0 {
            assert(spec_insert(leq, s, x) =~= s.take(j) + seq![x] + s.skip(j));
        } else {
            assert(leq(s.last(), x));
            assert(s.push(x) =~= s.take(j) + seq![x] + s.skip(j));
        }
    } else {
        assert(!leq(s.last(), x));
        let dl = s.drop_last();
        lemma_insert_position(leq, dl, x, j);
        assert(spec_insert(leq, s, x) == (dl.take(j) + seq![x] + dl.skip(j)).push(s.last()));
        assert(dl.take(j) =~= s.take(j));
        assert((dl.take(j) + seq![x] + dl.skip(j)).push(s.last()) =~= s.take(j) + seq![x] + s.skip(
        j));
    }
}

// ---------------------------------------------------------------------------
// The three concrete orders.
// ---------------------------------------------------------------------------

/// The default order: lexicographic on the case-folded projection.
pub open spec fn ci_le(a: Seq<char>, b: Seq<char>) -> bool {
    lex_le(fold_of(a), fold_of(b))
}

pub open spec fn ci_leq_fn() -> spec_fn(Seq<char>, Seq<char>) -> bool {
    |a: Seq<char>, b: Seq<char>| ci_le(a, b)
}

pub open spec fn lex_leq_fn() -> spec_fn(Seq<char>, Seq<char>) -> bool {
    |a: Seq<char>, b: Seq<char>| lex_le(a, b)
}

/// What the case-insensitive sort returns, as a function of the names.
pub open spec fn spec_ci_sort(names: Seq<Seq<char>>) -> Seq<Seq<char>> {
    spec_sort_by(ci_leq_fn(), names)
}

/// What the plain lexicographic sort returns.
pub open spec fn spec_lex_sort(names: Seq<Seq<char>>) -> Seq<Seq<char>> {
    spec_sort_by(lex_leq_fn(), names)
}

pub proof fn lemma_ci_leq_props()
    ensures
        total_on(ci_leq_fn()),
        transitive_on(ci_leq_fn()),
{
    assert forall|a: Seq<char>, b: Seq<char>|
        #[trigger] ci_leq_fn()(a, b) || #[trigger] ci_leq_fn()(b, a) by {
        lemma_lex_le_total(fold_of(a), fold_of(b));
    }
    assert forall|a: Seq<char>, b: Seq<char>, c: Seq<char>|
        #[trigger] ci_leq_fn()(a, b) && #[trigger] ci_leq_fn()(b, c) implies ci_leq_fn()(a, c) by {
        lemma_lex_le_trans(fold_of(a), fold_of(b), fold_of(c));
    }
}

pub proof fn lemma_lex_leq_props()
    ensures
        total_on(lex_leq_fn()),
        transitive_on(lex_leq_fn()),
{
    assert forall|a: Seq<char>, b: Seq<char>|
        #[trigger] lex_leq_fn()(a, b) || #[trigger] lex_leq_fn()(b, a) by {
        lemma_lex_le_total(a, b);
    }
    assert forall|a: Seq<char>, b: Seq<char>, c: Seq<char>|
        #[trigger] lex_leq_fn()(a, b) && #[trigger] lex_leq_fn()(b, c) implies lex_leq_fn()(
        a,
        c,
    ) by {
        lemma_lex_le_trans(a, b, c);
    }
}

/// Law: the case-insensitive sort is stable. Names that are equal under
/// case folding keep their relative input order: for every folded key `k`,
/// the subsequence of names folding to `k` is the same before and after
/// the sort.
pub proof fn lemma_ci_sort_stable(names: Seq<Seq<char>>, k: Seq<char>)
    ensures
        spec_ci_sort(names).filter(|n: Seq<char>| fold_of(n) == k) == names.filter(
            |n: Seq<char>| fold_of(n) == k,
        ),
{
    let p = |n: Seq<char>| fold_of(n) == k;
    assert forall|a: Seq<char>, b: Seq<char>| #[trigger] p(a) && #[trigger] p(b) implies ci_leq_fn()(
        a,
        b,
    ) by {
        lemma_lex_le_refl(fold_of(a));
    }
    lemma_sort_filter(ci_leq_fn(), p, names);
}

// ---------------------------------------------------------------------------
// Executable sorts.
// ---------------------------------------------------------------------------

/// Find the stable insertion point for the element with folded key `fx`
/// in the already-sorted `out`.
fn ci_insert_position(out: &Vec<String>, fx: &String, gx: Ghost<Seq<char>>) -> (j: usize)
    requires
        fx@ == fold_of(gx@),
        sorted_by(ci_leq_fn(), out.deep_view()),
    ensures
        j <= out.len(),
        forall|i: int| 0 <= i < j ==> ci_le(#[trigger] out.deep_view()[i], gx@),
        forall|i: int| j <= i < out.len() ==> !ci_le(#[trigger] out.deep_view()[i], gx@),
{
    let mut j: usize = 0;
    loop
        invariant_except_break
            j <= out.len(),
            fx@ == fold_of(gx@),
            forall|i: int| 0 <= i < j ==> ci_le(#[trigger] out.deep_view()[i], gx@),
        ensures
            j <= out.len(),
            forall|i: int| 0 <= i < j ==> ci_le(#[trigger] out.deep_view()[i], gx@),
            j < out.len() ==> !ci_le(out.deep_view()[j as int], gx@),
        decreases out.len() - j,
    {
        if j == out.len() {
            break ;
        }
        let fo = fold_case(out[j].as_str());
        if str_lex_le(fo.as_str(), fx.as_str()) {
            j = j + 1;
        } else {
            break ;
        }
    }
    proof {
        lemma_ci_leq_props();
        if j < out.len() {
            assert forall|i: int| j <= i < out.len() implies !ci_le(
                #[trigger] out.deep_view()[i],
                gx@,
            ) by {
                if i > j {
                    assert(ci_leq_fn()(out.deep_view()[j as int], out.deep_view()[i]));
                    if ci_le(out.deep_view()[i], gx@) {
                        assert(ci_leq_fn()(out.deep_view()[i], gx@));
                        assert(ci_leq_fn()(out.deep_view()[j as int], gx@));
                    }
                }
            }
        }
    }
    j
}

/// Sort names case-insensitively, stably: the canonical default order.
#[verifier::loop_isolation(false)]
pub fn sort_names_ci(v: &mut Vec<String>)
    ensures
        final(v).deep_view() == spec_ci_sort(old(v).deep_view()),
        final(v)@.len() == old(v)@.len(),
{
    proof {
        lemma_ci_leq_props();
    }
    let ghost full = old(v).deep_view();
    let mut out: Vec<String> = Vec::new();
    let mut idx: usize = 0;
    proof {
        assert(full.take(0) =~= Seq::<Seq<char>>::empty());
        lemma_sort_len(ci_leq_fn(), full);
    }
    while idx < v.len()
        invariant
            idx <= v.len(),
            out.deep_view() == spec_ci_sort(full.take(idx as int)),
            out.len() == idx,
            sorted_by(ci_leq_fn(), out.deep_view()),
        decreases v.len() - idx,
    {
        let x = v[idx].clone();
        let fx = fold_case(x.as_str());
        let ghost before = out.deep_view();
        let j = ci_insert_position(&out, &fx, Ghost(x@));
        proof {
            // behind the insertion point everything is above x in the order
            assert forall|i: int| j <= i < before.len() implies !ci_leq_fn()(
                #[trigger] before[i],
                x@,
            ) by {}
            assert forall|i: int| 0 <= i < j implies ci_leq_fn()(#[trigger] before[i], x@) by {}
            lemma_insert_position(ci_leq_fn(), before, x@, j as int);
        }
        out.insert(j, x);
        proof {
            assert(out.deep_view() =~= before.take(j as int) + seq![x@] + before.skip(j as int));
            assert(out.deep_view() == spec_insert(ci_leq_fn(), before, x@));
            assert(full.take(idx + 1).drop_last() =~= full.take(idx as int));
            assert(full.take(idx + 1).last() == x@);
            lemma_insert_sorted(ci_leq_fn(), before, x@);
        }
        idx = idx + 1;
    }
    proof {
        assert(full.take(v.len() as int) =~= full);
    }
    *v = out;
}

fn lex_insert_position(out: &Vec<String>, x: &String) -> (j: usize)
    requires
        sorted_by(lex_leq_fn(), out.deep_view()),
    ensures
        j <= out.len(),
        forall|i: int| 0 <= i < j ==> lex_le(#[trigger] out.deep_view()[i], x@),
        forall|i: int| j <= i < out.len() ==> !lex_le(#[trigger] out.deep_view()[i], x@),
{
    let mut j: usize = 0;
    loop
        invariant_except_break
            j <= out.len(),
            forall|i: int| 0 <= i < j ==> lex_le(#[trigger] out.deep_view()[i], x@),
        ensures
            j <= out.len(),
            forall|i: int| 0 <= i < j ==> lex_le(#[trigger] out.deep_view()[i], x@),
            j < out.len() ==> !lex_le(out.deep_view()[j as int], x@),
        decreases out.len() - j,
    {
        if j == out.len() {
            break ;
        }
        if str_lex_le(out[j].as_str(), x.as_str()) {
            j = j + 1;
        } else {
            break ;
        }
    }
    proof {
        lemma_lex_leq_props();
        if j < out.len() {
            assert forall|i: int| j <= i < out.len() implies !lex_le(
                #[trigger] out.deep_view()[i],
                x@,
            ) by {
                if i > j {
                    assert(lex_leq_fn()(out.deep_view()[j as int], out.deep_view()[i]));
                    if lex_le(out.deep_view()[i], x@) {
                        assert(lex_leq_fn()(out.deep_view()[i], x@));
                        assert(lex_leq_fn()(out.deep_view()[j as int], x@));
                    }
                }
            }
        }
    }
    j
}

/// Sort names in plain lexicographic (codepoint) order, stably.
#[verifier::loop_isolation(false)]
pub fn sort_names_lex(v: &mut Vec<String>)
    ensures
        final(v).deep_view() == spec_lex_sort(old(v).deep_view()),
        final(v)@.len() == old(v)@.len(),
{
    proof {
        lemma_lex_leq_props();
    }
    let ghost full = old(v).deep_view();
    let mut out: Vec<String> = Vec::new();
    let mut idx: usize = 0;
    proof {
        assert(full.take(0) =~= Seq::<Seq<char>>::empty());
        lemma_sort_len(lex_leq_fn(), full);
    }
    while idx < v.len()
        invariant
            idx <= v.len(),
            out.deep_view() == spec_lex_sort(full.take(idx as int)),
            out.len() == idx,
            sorted_by(lex_leq_fn(), out.deep_view()),
        decreases v.len() - idx,
    {
        let x = v[idx].clone();
        let ghost before = out.deep_view();
        let j = lex_insert_position(&out, &x);
        proof {
            assert forall|i: int| 0 <= i < j implies lex_leq_fn()(#[trigger] before[i], x@) by {}
            assert forall|i: int| j <= i < before.len() implies !lex_leq_fn()(
                #[trigger] before[i],
                x@,
            ) by {}
            lemma_insert_position(lex_leq_fn(), before, x@, j as int);
        }
        out.insert(j, x);
        proof {
            assert(out.deep_view() =~= before.take(j as int) + seq![x@] + before.skip(j as int));
            assert(out.deep_view() == spec_insert(lex_leq_fn(), before, x@));
            assert(full.take(idx + 1).drop_last() =~= full.take(idx as int));
            assert(full.take(idx + 1).last() == x@);
            lemma_insert_sorted(lex_leq_fn(), before, x@);
        }
        idx = idx + 1;
    }
    proof {
        assert(full.take(v.len() as int) =~= full);
    }
    *v = out;
}

// ---------------------------------------------------------------------------
// Sorting by modification time.
// ---------------------------------------------------------------------------

/// A name paired with the modification timestamp it was collected with.
/// The timestamp is read once, before sorting, so the order cannot shift
/// under the sort's feet.
pub struct TimedName {
    pub name: String,
    /// Seconds since the epoch.
    pub mtime: i64,
}

impl View for TimedName {
    type V = (Seq<char>, int);

    open spec fn view(&self) -> (Seq<char>, int) {
        (self.name@, self.mtime as int)
    }
}

impl DeepView for TimedName {
    type V = (Seq<char>, int);

    open spec fn deep_view(&self) -> (Seq<char>, int) {
        self.view()
    }
}

/// Newest first; equal timestamps fall back to lexicographic order on the
/// name, which keeps the output deterministic.
pub open spec fn timed_le(a: (Seq<char>, int), b: (Seq<char>, int)) -> bool {
    a.1 > b.1 || (a.1 == b.1 && lex_le(a.0, b.0))
}

pub open spec fn timed_leq_fn() -> spec_fn((Seq<char>, int), (Seq<char>, int)) -> bool {
    |a: (Seq<char>, int), b: (Seq<char>, int)| timed_le(a, b)
}

/// What the time sort returns, as a function of the name/timestamp pairs.
pub open spec fn spec_time_sort(entries: Seq<(Seq<char>, int)>) -> Seq<(Seq<char>, int)> {
    spec_sort_by(timed_leq_fn(), entries)
}

pub proof fn lemma_timed_leq_props()
    ensures
        total_on(timed_leq_fn()),
        transitive_on(timed_leq_fn()),
{
    assert forall|a: (Seq<char>, int), b: (Seq<char>, int)|
        #[trigger] timed_leq_fn()(a, b) || #[trigger] timed_leq_fn()(b, a) by {
        lemma_lex_le_total(a.0, b.0);
    }
    assert forall|a: (Seq<char>, int), b: (Seq<char>, int), c: (Seq<char>, int)|
        #[trigger] timed_leq_fn()(a, b) && #[trigger] timed_leq_fn()(b, c) implies timed_leq_fn()(
        a,
        c,
    ) by {
        if a.1 == b.1 && b.1 == c.1 {
            lemma_lex_le_trans(a.0, b.0, c.0);
        }
    }
}

fn timed_le_exec(a: &TimedName, b: &TimedName) -> (r: bool)
    ensures
        r == timed_le(a@, b@),
{
    if a.mtime > b.mtime {
        true
    } else if a.mtime == b.mtime {
        str_lex_le(a.name.as_str(), b.name.as_str())
    } else {
        false
    }
}

fn timed_insert_position(out: &Vec<TimedName>, x: &TimedName) -> (j: usize)
    requires
        sorted_by(timed_leq_fn(), out.deep_view()),
    ensures
        j <= out.len(),
        forall|i: int| 0 <= i < j ==> timed_le(#[trigger] out.deep_view()[i], x@),
        forall|i: int| j <= i < out.len() ==> !timed_le(#[trigger] out.deep_view()[i], x@),
{
    let mut j: usize = 0;
    loop
        invariant_except_break
            j <= out.len(),
            forall|i: int| 0 <= i < j ==> timed_le(#[trigger] out.deep_view()[i], x@),
        ensures
            j <= out.len(),
            forall|i: int| 0 <= i < j ==> timed_le(#[trigger] out.deep_view()[i], x@),
            j < out.len() ==> !timed_le(out.deep_view()[j as int], x@),
        decreases out.len() - j,
    {
        if j == out.len() {
            break ;
        }
        if timed_le_exec(&out[j], x) {
            j = j + 1;
        } else {
            break ;
        }
    }
    proof {
        lemma_timed_leq_props();
        if j < out.len() {
            assert forall|i: int| j <= i < out.len() implies !timed_le(
                #[trigger] out.deep_view()[i],
                x@,
            ) by {
                if i > j {
                    assert(timed_leq_fn()(out.deep_view()[j as int], out.deep_view()[i]));
                    if timed_le(out.deep_view()[i], x@) {
                        assert(timed_leq_fn()(out.deep_view()[i], x@));
                        assert(timed_leq_fn()(out.deep_view()[j as int], x@));
                    }
                }
            }
        }
    }
    j
}

/// Sort entries by modification time, newest first; ties go to the
/// lexicographically smaller name. Timestamps were collected beforehand,
/// one per name.
#[verifier::loop_isolation(false)]
pub fn sort_by_mod_time(v: &mut Vec<TimedName>)
    ensures
        final(v).deep_view() == spec_time_sort(old(v).deep_view()),
        final(v)@.len() == old(v)@.len(),
{
    proof {
        lemma_timed_leq_props();
    }
    let ghost full = old(v).deep_view();
    let mut out: Vec<TimedName> = Vec::new();
    let mut idx: usize = 0;
    proof {
        assert(full.take(0) =~= Seq::<(Seq<char>, int)>::empty());
        lemma_sort_len(timed_leq_fn(), full);
    }
    while idx < v.len()
        invariant
            idx <= v.len(),
            out.deep_view() == spec_time_sort(full.take(idx as int)),
            out.len() == idx,
            sorted_by(timed_leq_fn(), out.deep_view()),
        decreases v.len() - idx,
    {
        let x = TimedName { name: v[idx].name.clone(), mtime: v[idx].mtime };
        let ghost before = out.deep_view();
        let j = timed_insert_position(&out, &x);
        proof {
            assert forall|i: int| 0 <= i < j implies timed_leq_fn()(#[trigger] before[i], x@) by {}
            assert forall|i: int| j <= i < before.len() implies !timed_leq_fn()(
                #[trigger] before[i],
                x@,
            ) by {}
            lemma_insert_position(timed_leq_fn(), before, x@, j as int);
        }
        out.insert(j, x);
        proof {
            assert(out.deep_view() =~= before.take(j as int) + seq![x@] + before.skip(j as int));
            assert(out.deep_view() == spec_insert(timed_leq_fn(), before, x@));
            assert(full.take(idx + 1).drop_last() =~= full.take(idx as int));
            assert(full.take(idx + 1).last() == x@);
            lemma_insert_sorted(timed_leq_fn(), before, x@);
        }
        idx = idx + 1;
    }
    proof {
        assert(full.take(v.len() as int) =~= full);
    }
    *v = out;
}

/// Law: after the time sort the timestamps never increase along the
/// output sequence.
pub proof fn lemma_time_sort_nonincreasing(entries: Seq<(Seq<char>, int)>, i: int, j: int)
    requires
        0 <= i <= j < spec_time_sort(entries).len(),
    ensures
        spec_time_sort(entries)[i].1 >= spec_time_sort(entries)[j].1,
{
    lemma_timed_leq_props();
    lemma_sort_sorted(timed_leq_fn(), entries);
    if i < j {
        assert(timed_leq_fn()(spec_time_sort(entries)[i], spec_time_sort(entries)[j]));
    }
}

} // verus!
