use vstd::prelude::*;

use crate::license::{best_upto, end_probe, start_probe, optimized_bounds, ratio_gt, search_spec, view_grams, view_text, TextData};
use crate::license::lemma_best_upto_bounds;
use crate::ngram::{bigrams, dice, shared};
use crate::preproc::{is_word_char, join_with, word_state, words};

verus! {

proof fn lemma_word_state_prefix(p: Seq<char>, u: Seq<char>)
    ensures
        word_state(p).0.is_prefix_of(word_state(p + u).0),
    decreases u.len(),
{
    if u.len() == 0 {
        assert(p + u =~= p);
    } else {
        lemma_word_state_prefix(p, u.drop_last());
        assert((p + u).drop_last() =~= p + u.drop_last());
        let a = word_state(p).0;
        let b = word_state(p + u.drop_last()).0;
        let c = word_state(p + u).0;
        assert(c == b || c == b.push(word_state(p + u.drop_last()).1));
        assert(a =~= c.subrange(0, a.len() as int));
    }
}

proof fn lemma_words_prefix(s: Seq<char>, u: Seq<char>)
    ensures
        words(s).is_prefix_of(words(s.push('\n') + u)),
{
    let p = s.push('\n');
    assert(p.drop_last() =~= s);
    assert(!is_word_char('\n'));
    assert(word_state(p).0 == words(s));
    lemma_word_state_prefix(p, u);
    let c = word_state(p + u).0;
    let w = words(p + u);
    assert(w == c || w == c.push(word_state(p + u).1));
    assert(words(s) =~= w.subrange(0, words(s).len() as int));
}

proof fn lemma_view_words_step(ls: Seq<Seq<char>>, k: int)
    requires
        0 <= k < ls.len(),
    ensures
        words(view_text(ls, 0, k)).is_prefix_of(words(view_text(ls, 0, k + 1))),
{
    let t = ls.subrange(0, k + 1);
    if k == 0 {
        assert(ls.subrange(0, 0).len() == 0);
        assert(words(view_text(ls, 0, 0)) =~= Seq::<Seq<char>>::empty()) by {
            assert(view_text(ls, 0, 0) =~= Seq::<char>::empty());
            assert(word_state(Seq::<char>::empty()).1.len() == 0);
        }
    } else {
        assert(t.drop_last() =~= ls.subrange(0, k));
        lemma_words_prefix(view_text(ls, 0, k), t.last());
    }
}

proof fn lemma_view_words_prefix(ls: Seq<Seq<char>>, i: int, j: int)
    requires
        0 <= i <= j <= ls.len(),
    ensures
        words(view_text(ls, 0, i)).is_prefix_of(words(view_text(ls, 0, j))),
    decreases j - i,
{
    if i < j {
        lemma_view_words_prefix(ls, i, j - 1);
        lemma_view_words_step(ls, j - 1);
        let a = words(view_text(ls, 0, i));
        let b = words(view_text(ls, 0, j - 1));
        let c = words(view_text(ls, 0, j));
        assert(a =~= c.subrange(0, a.len() as int)) by {
            assert(a =~= b.subrange(0, a.len() as int));
            assert(b =~= c.subrange(0, b.len() as int));
        }
    }
}

proof fn lemma_bigrams_prefix(a: Seq<Seq<char>>, b: Seq<Seq<char>>)
    requires
        a.is_prefix_of(b),
    ensures
        bigrams(a).is_prefix_of(bigrams(b)),
{
    assert(bigrams(a) =~= bigrams(b).subrange(0, bigrams(a).len() as int)) by {
        assert forall|i: int| 0 <= i < bigrams(a).len() implies bigrams(a)[i] == bigrams(b)[i] by {
            assert(a[i] == b[i] && a[i + 1] == b[i + 1]);
        }
    }
}

proof fn lemma_shared_prefix(p: Seq<Seq<char>>, s: Seq<Seq<char>>)
    requires
        p.is_prefix_of(s),
    ensures
        shared(p, s) == p.len(),
{
    broadcast use vstd::multiset::group_multiset_axioms, vstd::multiset::lemma_intersection_count,
        vstd::seq_lib::group_to_multiset_ensures;

    let rest = s.subrange(p.len() as int, s.len() as int);
    assert(s =~= p + rest);
    vstd::seq_lib::lemma_multiset_commutative(p, rest);
    assert(p.to_multiset().intersection_with(s.to_multiset()) =~= p.to_multiset());
}

proof fn lemma_prefix_scores_ordered(a: Seq<Seq<char>>, b: Seq<Seq<char>>, full: Seq<Seq<char>>)
    requires
        a.is_prefix_of(b),
        b.is_prefix_of(full),
    ensures
        !ratio_gt(dice(a, full), dice(b, full)),
{
    assert(a.is_prefix_of(full)) by {
        assert(a =~= full.subrange(0, a.len() as int)) by {
            assert(a =~= b.subrange(0, a.len() as int));
        }
    }
    lemma_shared_prefix(a, full);
    lemma_shared_prefix(b, full);
    let x = a.len() as int;
    let y = b.len() as int;
    let n = full.len() as int;
    if x + n > 0 && y + n > 0 {
        assert(!(2 * x * (y + n) > 2 * y * (x + n))) by (nonlinear_arith)
            requires
                0 <= x <= y,
                0 <= n,
        ;
    }
}

proof fn lemma_search_nondecreasing(f: spec_fn(int) -> (nat, nat), left: int, right: int)
    requires
        left <= right,
        forall|i: int, j: int| left <= i <= j <= right ==> !ratio_gt(#[trigger] f(i), #[trigger] f(j)),
    ensures
        search_spec(f, left, right).0 == right,
    decreases right - left,
{
    if right - left <= 3 {
        lemma_best_upto_last(f, left, right);
    } else {
        let low = (2 * left + right) / 3;
        let high = (left + 2 * right) / 3;
        assert(!ratio_gt(f(low), f(high)));
        lemma_search_nondecreasing(f, low + 1, right);
    }
}

proof fn lemma_best_upto_last(f: spec_fn(int) -> (nat, nat), left: int, i: int)
    requires
        left <= i,
        forall|a: int, b: int| left <= a <= b <= i ==> !ratio_gt(#[trigger] f(a), #[trigger] f(b)),
    ensures
        best_upto(f, left, i).0 == i,
    decreases i - left,
{
    if left < i {
        lemma_best_upto_last(f, left, i - 1);
        lemma_best_upto_bounds(f, left, i - 1);
        assert(!ratio_gt(f(i - 1), f(i)));
    } else {
        let acc = best_upto(f, left, i - 1);
        assert(acc == (0int, (0nat, 1nat)));
        assert(!ratio_gt(acc.1, f(i)));
    }
}

/// When the reference has the fingerprint of a document's whole text, searching for the
/// end of the match keeps the end of the text: no shorter prefix scores higher.
pub proof fn lemma_exact_match_keeps_end(doc: TextData, reference: TextData)
    requires
        doc.wf(),
        doc.stored_lines() is Some,
        doc.view() == (0int, doc.stored_lines()->0.len() as int),
        reference.fingerprint() == doc.fingerprint(),
    ensures
        optimized_bounds(doc.stored_lines()->0, reference.fingerprint(), 0, doc.view().1).1
            == doc.view().1,
{
    let ls = doc.stored_lines()->0;
    let n = ls.len() as int;
    let full = view_grams(ls, 0, n);
    let f = end_probe(ls, full, 0);
    assert forall|i: int, j: int| 0 <= i <= j <= n implies !ratio_gt(#[trigger] f(i), #[trigger] f(j)) by {
        lemma_view_words_prefix(ls, i, j);
        lemma_view_words_prefix(ls, j, n);
        lemma_bigrams_prefix(words(view_text(ls, 0, i)), words(view_text(ls, 0, j)));
        lemma_bigrams_prefix(words(view_text(ls, 0, j)), words(view_text(ls, 0, n)));
        lemma_prefix_scores_ordered(view_grams(ls, 0, i), view_grams(ls, 0, j), full);
    }
    lemma_search_nondecreasing(f, 0, n);
}

proof fn lemma_join_concat(a: Seq<Seq<char>>, b: Seq<Seq<char>>, sep: char)
    requires
        a.len() > 0,
        b.len() > 0,
    ensures
        join_with(a + b, sep) == join_with(a, sep).push(sep) + join_with(b, sep),
    decreases b.len(),
{
    assert((a + b).drop_last() =~= a + b.drop_last());
    if b.len() == 1 {
        assert(a + b.drop_last() =~= a);
    } else {
        lemma_join_concat(a, b.drop_last(), sep);
        assert(join_with(a + b, sep) =~= join_with(a, sep).push(sep) + join_with(b, sep));
    }
}

proof fn lemma_word_state_after_newline(a: Seq<char>, b: Seq<char>)
    ensures
        word_state(a.push('\n') + b) == (words(a) + word_state(b).0, word_state(b).1),
    decreases b.len(),
{
    let p = a.push('\n');
    assert(p.drop_last() =~= a);
    assert(!is_word_char('\n'));
    if b.len() == 0 {
        assert(p + b =~= p);
        assert(words(a) + word_state(b).0 =~= words(a));
    } else {
        lemma_word_state_after_newline(a, b.drop_last());
        assert((p + b).drop_last() =~= p + b.drop_last());
        assert((p + b).last() == b.last());
        let prev = word_state(b.drop_last());
        assert((words(a) + prev.0).push(prev.1) =~= words(a) + prev.0.push(prev.1));
    }
}

proof fn lemma_words_after_newline(a: Seq<char>, b: Seq<char>)
    ensures
        words(a.push('\n') + b) == words(a) + words(b),
{
    lemma_word_state_after_newline(a, b);
    let w = word_state(b);
    assert((words(a) + w.0).push(w.1) =~= words(a) + w.0.push(w.1));
}

/// The words of the lines `s..e` are those of `s..m` followed by those of `m..e`.
proof fn lemma_view_words_split(ls: Seq<Seq<char>>, s: int, m: int, e: int)
    requires
        0 <= s < m < e <= ls.len(),
    ensures
        words(view_text(ls, s, e)) == words(view_text(ls, s, m)) + words(view_text(ls, m, e)),
{
    let a = ls.subrange(s, m);
    let b = ls.subrange(m, e);
    assert(a + b =~= ls.subrange(s, e));
    lemma_join_concat(a, b, '\n');
    lemma_words_after_newline(view_text(ls, s, m), view_text(ls, m, e));
}

pub open spec fn lines_have_two_words(ls: Seq<Seq<char>>) -> bool {
    forall|i: int| 0 <= i < ls.len() ==> #[trigger] words(ls[i]).len() >= 2
}

proof fn lemma_view_words_len(ls: Seq<Seq<char>>, s: int, e: int)
    requires
        0 <= s < e <= ls.len(),
        lines_have_two_words(ls),
    ensures
        words(view_text(ls, s, e)).len() >= 2,
{
    assert(ls.subrange(s, s + 1) =~= seq![ls[s]]);
    assert(words(view_text(ls, s, s + 1)) == words(ls[s]));
    if s + 1 < e {
        lemma_view_words_split(ls, s, s + 1, e);
    }
}

proof fn lemma_bigrams_concat(w1: Seq<Seq<char>>, w2: Seq<Seq<char>>)
    requires
        w1.len() > 0,
        w2.len() > 0,
    ensures
        bigrams(w1 + w2) =~= bigrams(w1 + w2).take(w1.len() as int) + bigrams(w2),
{
    let w = w1 + w2;
    assert forall|i: int| w1.len() <= i < bigrams(w).len() implies bigrams(w)[i] == bigrams(w2)[i
        - w1.len()] by {
        assert(w[i] == w2[i - w1.len()] && w[i + 1] == w2[i - w1.len() + 1]);
    }
}

proof fn lemma_shared_suffix(p: Seq<Seq<char>>, x: Seq<Seq<char>>)
    ensures
        shared(p, x + p) == p.len(),
{
    broadcast use vstd::multiset::group_multiset_axioms, vstd::multiset::lemma_intersection_count,
        vstd::seq_lib::group_to_multiset_ensures;

    vstd::seq_lib::lemma_multiset_commutative(x, p);
    assert(p.to_multiset().intersection_with((x + p).to_multiset()) =~= p.to_multiset());
}

/// With every line of at least two words, the fingerprint of lines `s..n` is a strict
/// sub-multiset of that of `s'..n` for `s' < s`: it scores strictly lower against the whole.
proof fn lemma_suffix_scores_decrease(ls: Seq<Seq<char>>, i: int, j: int)
    requires
        0 <= i < j <= ls.len(),
        lines_have_two_words(ls),
    ensures
        ratio_gt(
            dice(view_grams(ls, i, ls.len() as int), view_grams(ls, 0, ls.len() as int)),
            dice(view_grams(ls, j, ls.len() as int), view_grams(ls, 0, ls.len() as int)),
        ),
{
    let n = ls.len() as int;
    let full = view_grams(ls, 0, n);
    let gi = view_grams(ls, i, n);
    let gj = view_grams(ls, j, n);
    lemma_view_words_len(ls, i, n);
    lemma_view_words_len(ls, 0, n);
    // gi is a suffix of full
    if i == 0 {
        assert(Seq::<Seq<char>>::empty() + gi =~= full);
        lemma_shared_suffix(gi, Seq::empty());
    } else {
        lemma_view_words_split(ls, 0, i, n);
        lemma_view_words_len(ls, 0, i);
        lemma_bigrams_concat(words(view_text(ls, 0, i)), words(view_text(ls, i, n)));
        lemma_shared_suffix(gi, full.take(words(view_text(ls, 0, i)).len() as int));
    }
    // gj is a suffix of full, and shorter than gi
    if j == n {
        assert(ls.subrange(n, n).len() == 0);
        assert(view_text(ls, n, n) =~= Seq::<char>::empty());
        assert(word_state(Seq::<char>::empty()).1.len() == 0);
        assert(gj.len() == 0);
        assert(full + gj =~= full);
        lemma_shared_suffix(gj, full);
    } else {
        lemma_view_words_split(ls, 0, j, n);
        lemma_view_words_len(ls, 0, j);
        lemma_view_words_len(ls, j, n);
        lemma_bigrams_concat(words(view_text(ls, 0, j)), words(view_text(ls, j, n)));
        lemma_shared_suffix(gj, full.take(words(view_text(ls, 0, j)).len() as int));
        lemma_view_words_split(ls, i, j, n);
        lemma_view_words_len(ls, i, j);
    }
    let a = gi.len() as int;
    let b = gj.len() as int;
    let m = full.len() as int;
    assert(a > b);
    assert(m >= a);
    assert(2 * a * (b + m) > 2 * b * (a + m)) by (nonlinear_arith)
        requires
            0 <= b < a <= m,
    ;
}

proof fn lemma_best_upto_first(f: spec_fn(int) -> (nat, nat), left: int, i: int)
    requires
        left <= i,
        forall|a: int, b: int| left <= a < b <= i ==> ratio_gt(#[trigger] f(a), #[trigger] f(b)),
    ensures
        best_upto(f, left, i).0 == left,
    decreases i - left,
{
    if left < i {
        lemma_best_upto_first(f, left, i - 1);
        lemma_best_upto_bounds(f, left, i - 1);
        assert(ratio_gt(f(left), f(i)));
    } else {
        let acc = best_upto(f, left, i - 1);
        assert(acc == (0int, (0nat, 1nat)));
        assert(!ratio_gt(acc.1, f(i)));
    }
}

proof fn lemma_search_decreasing(f: spec_fn(int) -> (nat, nat), left: int, right: int)
    requires
        left <= right,
        forall|a: int, b: int| left <= a < b <= right ==> ratio_gt(#[trigger] f(a), #[trigger] f(b)),
    ensures
        search_spec(f, left, right).0 == left,
    decreases right - left,
{
    if right - left <= 3 {
        lemma_best_upto_first(f, left, right);
    } else {
        let low = (2 * left + right) / 3;
        let high = (left + 2 * right) / 3;
        assert(ratio_gt(f(low), f(high)));
        lemma_search_decreasing(f, left, high - 1);
    }
}

/// When the reference has the fingerprint of a document's whole text and every line of
/// the document holds at least two words, the optimized view is the whole text, with a
/// perfect score.
pub proof fn lemma_exact_match_bounds(doc: TextData, reference: TextData)
    requires
        doc.wf(),
        doc.stored_lines() is Some,
        doc.stored_lines()->0.len() > 0,
        lines_have_two_words(doc.stored_lines()->0),
        doc.view() == (0int, doc.stored_lines()->0.len() as int),
        reference.fingerprint() == doc.fingerprint(),
    ensures
        optimized_bounds(doc.stored_lines()->0, reference.fingerprint(), 0, doc.view().1) == (
            0int,
            doc.view().1,
        ),
        dice(doc.fingerprint(), reference.fingerprint()).0 == dice(
            doc.fingerprint(),
            reference.fingerprint(),
        ).1,
{
    let ls = doc.stored_lines()->0;
    let n = ls.len() as int;
    let full = view_grams(ls, 0, n);
    lemma_exact_match_keeps_end(doc, reference);
    let g = start_probe(ls, full, n);
    assert forall|a: int, b: int| 0 <= a < b <= n implies ratio_gt(#[trigger] g(a), #[trigger] g(b)) by {
        lemma_suffix_scores_decrease(ls, a, b);
    }
    lemma_search_decreasing(g, 0, n);
    lemma_view_words_len(ls, 0, n);
    lemma_shared_suffix(full, Seq::empty());
    assert(Seq::<Seq<char>>::empty() + full =~= full);
}

} // verus!
