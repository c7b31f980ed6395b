use vstd::prelude::*;
use vstd::arithmetic::mul::lemma_mul_upper_bound;
use vstd::multiset::{lemma_intersection_count, Multiset};

use crate::preproc::{char_views, join_with};

verus! {

/// The word bigrams of `ws`: each two neighbouring words joined by a space.
pub open spec fn bigrams(ws: Seq<Seq<char>>) -> Seq<Seq<char>> {
    Seq::new(
        if ws.len() >= 2 { (ws.len() - 1) as nat } else { 0 },
        |i: int| join_with(seq![ws[i], ws[i + 1]], ' '),
    )
}

/// The number of grams that `a` and `b` share, counted with multiplicity.
pub open spec fn shared(a: Seq<Seq<char>>, b: Seq<Seq<char>>) -> nat {
    a.to_multiset().intersection_with(b.to_multiset()).len()
}

/// The Dice coefficient of two gram sequences, as a numerator and a denominator:
/// twice the shared grams over the total number of grams. Two empty sequences are
/// identical and score one.
pub open spec fn dice(a: Seq<Seq<char>>, b: Seq<Seq<char>>) -> (nat, nat) {
    if a.len() + b.len() == 0 {
        (1, 1)
    } else {
        (2 * shared(a, b), a.len() + b.len())
    }
}

pub open spec fn limb() -> int {
    0x1_0000_0000
}

pub open spec fn score_bound() -> int {
    0x4_0000_0000_0000_0000
}

/// A similarity score: the fraction `num / den`.
#[derive(Clone, Copy, Debug)]
pub struct Score {
    pub num: u128,
    pub den: u128,
}

impl Score {
    /// A valid score lies in `[0, 1]` and has a nonzero denominator.
    pub open spec fn wf(&self) -> bool {
        0 < self.den < score_bound() && self.num <= self.den
    }

    /// `self` is strictly greater than `other` as a fraction.
    pub open spec fn exceeds(&self, other: &Score) -> bool {
        self.num * other.den > other.num * self.den
    }

    pub fn zero() -> (r: Score)
        ensures
            r.num == 0,
            r.den == 1,
    {
        Score { num: 0, den: 1 }
    }

    /// Whether `self` is strictly greater than `other`.
    pub fn greater_than(&self, other: &Score) -> (r: bool)
        requires
            self.wf(),
            other.wf(),
        ensures
            r == self.exceeds(other),
    {
        let (h1, l1) = wide_mul(self.num, other.den);
        let (h2, l2) = wide_mul(other.num, self.den);
        proof {
            lemma_limb_order(h1 as int, l1 as int, h2 as int, l2 as int);
        }
        h1 > h2 || (h1 == h2 && l1 > l2)
    }
}

proof fn lemma_limb_order(h1: int, l1: int, h2: int, l2: int)
    requires
        0 <= l1 < limb(),
        0 <= l2 < limb(),
        0 <= h1,
        0 <= h2,
    ensures
        (h1 * limb() + l1 > h2 * limb() + l2) == (h1 > h2 || (h1 == h2 && l1 > l2)),
{
    let k = limb();
    if h1 > h2 {
        assert(h1 * k >= h2 * k + k) by (nonlinear_arith)
            requires
                h1 > h2,
                k > 0,
        ;
    } else if h1 < h2 {
        assert(h2 * k >= h1 * k + k) by (nonlinear_arith)
            requires
                h2 > h1,
                k > 0,
        ;
    }
}

/// `a * b` as a high part and a low limb: `a * b == hi * 2^32 + lo`.
fn wide_mul(a: u128, b: u128) -> (r: (u128, u128))
    requires
        a < score_bound(),
        b < score_bound(),
    ensures
        r.0 * limb() + r.1 == a * b,
        r.1 < limb(),
{
    let b1 = b / 0x1_0000_0000;
    let b0 = b % 0x1_0000_0000;
    assert(b1 < 0x4_0000_0000);
    proof {
        lemma_mul_upper_bound(a as int, 0x4_0000_0000_0000_0000, b1 as int, 0x4_0000_0000);
        lemma_mul_upper_bound(a as int, 0x4_0000_0000_0000_0000, b0 as int, 0x1_0000_0000);
    }
    let x1 = a * b1;
    let x0 = a * b0;
    let hi = x1 + x0 / 0x1_0000_0000;
    let lo = x0 % 0x1_0000_0000;
    assert(hi * limb() + lo == a * b) by (nonlinear_arith)
        requires
            b == b1 * 0x1_0000_0000 + b0,
            x1 == a * b1,
            x0 == a * b0,
            x0 == (x0 / 0x1_0000_0000) * 0x1_0000_0000 + x0 % 0x1_0000_0000,
            hi == x1 + x0 / 0x1_0000_0000,
            lo == x0 % 0x1_0000_0000,
            limb() == 0x1_0000_0000,
    ;
    (hi, lo)
}

proof fn lemma_shared_step(m: Multiset<Seq<char>>, r: Multiset<Seq<char>>, x: Seq<char>)
    ensures
        r.count(x) > 0 ==> m.insert(x).intersection_with(r) =~= m.intersection_with(
            r.remove(x),
        ).insert(x),
        r.count(x) == 0 ==> m.insert(x).intersection_with(r) =~= m.intersection_with(r),
{
    broadcast use vstd::multiset::group_multiset_axioms, lemma_intersection_count;

}

proof fn lemma_insert_cancel(m: Multiset<Seq<char>>, r: Multiset<Seq<char>>, x: Seq<char>)
    ensures
        (m.insert(x) == r.insert(x)) == (m == r),
{
    broadcast use vstd::multiset::group_multiset_axioms;

    if m.insert(x) == r.insert(x) {
        assert forall|y: Seq<char>| m.count(y) == r.count(y) by {
            assert(m.insert(x).count(y) == r.insert(x).count(y));
        }
        assert(m =~= r);
    }
}

/// Whether two character sequences are equal.
pub fn chars_eq(a: &Vec<char>, b: &Vec<char>) -> (r: bool)
    ensures
        r == (a@ == b@),
{
    if a.len() != b.len() {
        return false;
    }
    let mut i: usize = 0;
    while i < a.len()
        invariant
            a.len() == b.len(),
            i <= a.len(),
            a@.take(i as int) == b@.take(i as int),
        decreases a.len() - i,
    {
        if a[i] != b[i] {
            return false;
        }
        assert(a@.take(i + 1) =~= a@.take(i as int).push(a[i as int]));
        assert(b@.take(i + 1) =~= b@.take(i as int).push(b[i as int]));
        i = i + 1;
    }
    assert(a@.take(a.len() as int) =~= a@);
    assert(b@.take(b.len() as int) =~= b@);
    true
}

/// The position of a gram equal to `x` in `v`, if there is one.
fn find_gram(v: &Vec<Vec<char>>, x: &Vec<char>) -> (r: Option<usize>)
    ensures
        match r {
            Some(j) => j < v.len() && v@[j as int]@ == x@,
            None => forall|k: int| 0 <= k < v.len() ==> v@[k]@ != x@,
        },
{
    let mut j: usize = 0;
    while j < v.len()
        invariant
            j <= v.len(),
            forall|k: int| 0 <= k < j ==> v@[k]@ != x@,
        decreases v.len() - j,
    {
        if chars_eq(&v[j], x) {
            return Some(j);
        }
        j = j + 1;
    }
    None
}

/// A multiset of word bigrams: the fingerprint of a text.
#[derive(Clone, Debug)]
pub struct NgramSet {
    grams: Vec<Vec<char>>,
}

impl View for NgramSet {
    type V = Seq<Seq<char>>;

    closed spec fn view(&self) -> Seq<Seq<char>> {
        char_views(self.grams@)
    }
}

impl NgramSet {
    /// The bigrams of a sequence of words.
    pub fn from_words(ws: &Vec<Vec<char>>) -> (r: NgramSet)
        ensures
            r@ == bigrams(char_views(ws@)),
    {
        let ghost w = char_views(ws@);
        let mut grams: Vec<Vec<char>> = Vec::new();
        let mut i: usize = 0;
        while i + 1 < ws.len()
            invariant
                w == char_views(ws@),
                i <= ws.len(),
                ws.len() >= 1 ==> i < ws.len(),
                char_views(grams@) =~= bigrams(w).take(i as int),
            decreases ws.len() - i,
        {
            let mut g: Vec<char> = ws[i].clone();
            g.push(' ');
            let ghost before = g@;
            let mut k: usize = 0;
            while k < ws[i + 1].len()
                invariant
                    i + 1 < ws.len(),
                    k <= ws[i + 1].len(),
                    g@ == before + ws[i + 1]@.take(k as int),
                decreases ws[i + 1].len() - k,
            {
                g.push(ws[i + 1][k]);
                k = k + 1;
            }
            assert(ws[i + 1]@.take(ws[i + 1].len() as int) =~= ws[i + 1]@);
            let ghost pair = seq![w[i as int], w[i + 1]];
            assert(pair.drop_last() =~= seq![w[i as int]]);
            assert(join_with(seq![w[i as int]], ' ') == w[i as int]);
            assert(w[i as int] == ws@[i as int]@);
            assert(w[i + 1] == ws@[i + 1]@);
            assert(g@ == join_with(pair, ' '));
            let ghost prev = char_views(grams@);
            grams.push(g);
            assert(char_views(grams@) =~= prev.push(g@));
            i = i + 1;
        }
        NgramSet { grams }
    }

    /// Whether the two fingerprints hold the same grams, each as often.
    pub fn same_grams(&self, other: &NgramSet) -> (r: bool)
        ensures
            r == (self@.to_multiset() == other@.to_multiset()),
    {
        broadcast use vstd::seq_lib::group_to_multiset_ensures, vstd::multiset::group_multiset_axioms;

        let ghost a = self@;
        let ghost b = other@;
        let mut rest: Vec<Vec<char>> = other.grams.clone();
        assert(char_views(rest@) =~= b);
        let mut i: usize = self.grams.len();
        assert(a.take(i as int) =~= a);
        while i > 0
            invariant
                a == self@,
                b == other@,
                a.len() == self.grams.len(),
                i <= a.len(),
                (a.to_multiset() == b.to_multiset()) == (a.take(i as int).to_multiset()
                    == char_views(rest@).to_multiset()),
            decreases i,
        {
            i = i - 1;
            let x = &self.grams[i];
            assert(x@ == a[i as int]);
            let ghost m = a.take(i as int).to_multiset();
            let ghost rv = char_views(rest@);
            proof {
                vstd::seq_lib::to_multiset_build(a.take(i as int), a[i as int]);
                rv.to_multiset_ensures();
            }
            assert(a.take(i + 1) =~= a.take(i as int).push(a[i as int]));
            assert(a.take(i + 1).to_multiset() == m.insert(a[i as int]));
            match find_gram(&rest, x) {
                Some(j) => {
                    assert(rv[j as int] == rest@[j as int]@);
                    rest.remove(j);
                    assert(char_views(rest@) =~= rv.remove(j as int));
                    assert(rv.to_multiset() =~= char_views(rest@).to_multiset().insert(a[i as int]));
                    proof {
                        lemma_insert_cancel(m, char_views(rest@).to_multiset(), a[i as int]);
                    }
                },
                None => {
                    assert(!rv.contains(a[i as int])) by {
                        if rv.contains(a[i as int]) {
                            let k = choose|k: int| 0 <= k < rv.len() && rv[k] == a[i as int];
                            assert(rv[k] == rest@[k]@);
                        }
                    }
                    assert(m.insert(a[i as int]).count(a[i as int]) > 0);
                    assert(rv.to_multiset().count(a[i as int]) == 0);
                    return false;
                },
            }
        }
        assert(a.take(0).to_multiset() =~= Multiset::empty());
        proof {
            char_views(rest@).to_multiset_ensures();
        }
        if rest.len() == 0 {
            assert(char_views(rest@).to_multiset() =~= Multiset::empty());
            true
        } else {
            assert(char_views(rest@).to_multiset().len() > 0);
            false
        }
    }

    /// The number of grams shared with `other`, counted with multiplicity.
    pub fn shared_count(&self, other: &NgramSet) -> (r: usize)
        ensures
            r == shared(self@, other@),
            r <= self@.len(),
            r <= other@.len(),
    {
        broadcast use vstd::seq_lib::group_to_multiset_ensures, vstd::multiset::group_multiset_axioms;

        let ghost a = self@;
        let mut rest: Vec<Vec<char>> = other.grams.clone();
        assert(char_views(rest@) =~= other@);
        let mut matches: usize = 0;
        let mut i: usize = self.grams.len();
        assert(a.take(i as int) =~= a);
        while i > 0
            invariant
                a == self@,
                a.len() == self.grams.len(),
                i <= a.len(),
                matches + char_views(rest@).len() == other@.len(),
                matches + i <= a.len(),
                matches + a.take(i as int).to_multiset().intersection_with(
                    char_views(rest@).to_multiset(),
                ).len() == shared(a, other@),
            decreases i,
        {
            i = i - 1;
            let x = &self.grams[i];
            assert(x@ == a[i as int]);
            let ghost m = a.take(i as int).to_multiset();
            let ghost r = char_views(rest@).to_multiset();
            assert(a.take(i + 1) =~= a.take(i as int).push(a[i as int]));
            proof {
                lemma_shared_step(m, r, a[i as int]);
                vstd::seq_lib::to_multiset_build(a.take(i as int), a[i as int]);
            }
            assert(a.take(i + 1).to_multiset() == m.insert(a[i as int]));
            let found = find_gram(&rest, x);
            if let Some(j) = found {
                let ghost rv = char_views(rest@);
                assert(rv.contains(a[i as int])) by {
                    assert(rv[j as int] == rest@[j as int]@);
                }
                rest.remove(j);
                assert(char_views(rest@) =~= rv.remove(j as int));
                proof {
                    rv.to_multiset_ensures();
                }
                assert(r.count(a[i as int]) > 0);
                assert(char_views(rest@).to_multiset() == r.remove(a[i as int]));
                proof {
                    vstd::multiset::lemma_insert_len(
                        m.intersection_with(r.remove(a[i as int])),
                        a[i as int],
                    );
                }
                matches = matches + 1;
            } else {
                assert(!char_views(rest@).contains(a[i as int])) by {
                    if char_views(rest@).contains(a[i as int]) {
                        let k = choose|k: int|
                            0 <= k < rest.len() && char_views(rest@)[k] == a[i as int];
                        assert(char_views(rest@)[k] == rest@[k]@);
                    }
                }
                proof {
                    char_views(rest@).to_multiset_ensures();
                }
                assert(r.count(a[i as int]) == 0);
            }
        }
        assert(a.take(0).to_multiset() =~= Multiset::empty());
        assert(Multiset::<Seq<char>>::empty().intersection_with(char_views(rest@).to_multiset()) =~= Multiset::empty()) by {
            broadcast use lemma_intersection_count;
        }
        matches
    }

    /// The Dice coefficient of the two fingerprints.
    pub fn dice(&self, other: &NgramSet) -> (r: Score)
        ensures
            r.wf(),
            (r.num as nat, r.den as nat) == dice(self@, other@),
    {
        let total: u128 = self.grams.len() as u128 + other.grams.len() as u128;
        if total == 0 {
            return Score { num: 1, den: 1 };
        }
        let s = self.shared_count(other);
        Score { num: 2 * (s as u128), den: total }
    }
}

} // verus!
