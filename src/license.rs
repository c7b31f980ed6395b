use std::collections::HashMap;
use vstd::prelude::*;

use crate::ngram::{bigrams, dice, NgramSet, Score};
use crate::preproc::{
    apply_normalizers, join_lines, join_with, join_words, normalize, string_from_chars,
    processed, string_views, words, words_of,
};

verus! {

broadcast use vstd::std_specs::hash::group_hash_axioms;

/// The type of a license entry in a catalog of reference texts.
#[derive(Clone, Copy, PartialEq, Eq, Debug, Structural)]
pub enum LicenseType {
    /// The canonical text of the license.
    Original,
    /// A license header.
    Header,
    /// An alternate format of a license.
    Alternate,
}

pub open spec fn license_type_label(t: LicenseType) -> Seq<char> {
    match t {
        LicenseType::Original => "original text"@,
        LicenseType::Header => "license header"@,
        LicenseType::Alternate => "alternate text"@,
    }
}

impl LicenseType {
    /// The human-readable label of this type.
    pub fn label(&self) -> (r: &'static str)
        ensures
            r@ == license_type_label(*self),
    {
        match self {
            LicenseType::Original => "original text",
            LicenseType::Header => "license header",
            LicenseType::Alternate => "alternate text",
        }
    }

    /// The label as an owned string.
    pub fn to_string(&self) -> (r: String)
        ensures
            r@ == license_type_label(*self),
    {
        self.label().to_string()
    }
}

/// The lines `start..end` of `ls`, joined by newlines.
pub open spec fn view_text(ls: Seq<Seq<char>>, start: int, end: int) -> Seq<char> {
    join_with(ls.subrange(start, end), '\n')
}

/// The fingerprint of the lines `start..end` of `ls`.
pub open spec fn view_grams(ls: Seq<Seq<char>>, start: int, end: int) -> Seq<Seq<char>> {
    bigrams(words(view_text(ls, start, end)))
}

/// `x` is strictly greater than `y`, both read as fractions.
pub open spec fn ratio_gt(x: (nat, nat), y: (nat, nat)) -> bool {
    x.0 * y.1 > y.0 * x.1
}

pub open spec fn score_of(s: Score) -> (nat, nat) {
    (s.num as nat, s.den as nat)
}

/// Best index among `left..=i` by `f`, folding from the left and keeping the later index
/// on ties; starts from index 0 with score zero.
pub open spec fn best_upto(f: spec_fn(int) -> (nat, nat), left: int, i: int) -> (int, (nat, nat))
    decreases i - left + 1,
{
    if i < left {
        (0, (0, 1))
    } else {
        let acc = best_upto(f, left, i - 1);
        if ratio_gt(acc.1, f(i)) {
            acc
        } else {
            (i, f(i))
        }
    }
}

/// The bounded ternary search for the index in `left..=right` that maximizes `f`.
pub open spec fn search_spec(f: spec_fn(int) -> (nat, nat), left: int, right: int) -> (int, (nat, nat))
    decreases right - left,
{
    if right - left <= 3 {
        best_upto(f, left, right)
    } else {
        let low = (2 * left + right) / 3;
        let high = (left + 2 * right) / 3;
        if ratio_gt(f(low), f(high)) {
            search_spec(f, left, high - 1)
        } else {
            search_spec(f, low + 1, right)
        }
    }
}

/// Score against `reference` of the lines `start..i`, as a function of the end `i`.
pub open spec fn end_probe(ls: Seq<Seq<char>>, reference: Seq<Seq<char>>, start: int) -> spec_fn(
    int,
) -> (nat, nat) {
    |i: int| dice(view_grams(ls, start, i), reference)
}

/// Score against `reference` of the lines `i..end`, as a function of the start `i`.
pub open spec fn start_probe(ls: Seq<Seq<char>>, reference: Seq<Seq<char>>, end: int) -> spec_fn(
    int,
) -> (nat, nat) {
    |i: int| dice(view_grams(ls, i, end), reference)
}

/// The bounds that the two-phase search picks: the end first, from the current start,
/// then the start, up to that end.
pub open spec fn optimized_bounds(
    ls: Seq<Seq<char>>,
    reference: Seq<Seq<char>>,
    start: int,
    end: int,
) -> (int, int) {
    let e = search_spec(end_probe(ls, reference, start), start, end).0;
    let s = search_spec(start_probe(ls, reference, e), start, e).0;
    (s, e)
}

/// The score function of one phase: the moving boundary is the end when `moving_end`,
/// else the start; the other one is `fixed`.
pub open spec fn probe_fn(
    ls: Seq<Seq<char>>,
    reference: Seq<Seq<char>>,
    fixed: int,
    moving_end: bool,
) -> spec_fn(int) -> (nat, nat) {
    if moving_end {
        end_probe(ls, reference, fixed)
    } else {
        start_probe(ls, reference, fixed)
    }
}

/// Every score in the memo is valid and is the score of its index.
pub open spec fn memo_ok(m: Map<usize, Score>, f: spec_fn(int) -> (nat, nat)) -> bool {
    forall|k: usize| #[trigger] m.contains_key(k) ==> m[k].wf() && score_of(m[k]) == f(k as int)
}

/// The moving boundary may stand at `i`: the view it gives lies within the lines.
pub open spec fn probe_in_range(len: int, fixed: int, moving_end: bool, i: int) -> bool {
    if moving_end {
        0 <= fixed <= i <= len
    } else {
        0 <= i <= fixed <= len
    }
}

pub proof fn lemma_best_upto_bounds(f: spec_fn(int) -> (nat, nat), left: int, i: int)
    requires
        left <= i,
    ensures
        left <= best_upto(f, left, i).0 <= i,
        best_upto(f, left, i).1 == f(best_upto(f, left, i).0),
    decreases i - left,
{
    if left < i {
        lemma_best_upto_bounds(f, left, i - 1);
    } else {
        let acc = best_upto(f, left, i - 1);
        assert(acc == (0int, (0nat, 1nat)));
        assert(!ratio_gt(acc.1, f(i)));
    }
}

pub proof fn lemma_search_bounds(f: spec_fn(int) -> (nat, nat), left: int, right: int)
    requires
        left <= right,
    ensures
        left <= search_spec(f, left, right).0 <= right,
        search_spec(f, left, right).1 == f(search_spec(f, left, right).0),
    decreases right - left,
{
    if right - left <= 3 {
        lemma_best_upto_bounds(f, left, right);
    } else {
        let low = (2 * left + right) / 3;
        let high = (left + 2 * right) / 3;
        if ratio_gt(f(low), f(high)) {
            lemma_search_bounds(f, left, high - 1);
        } else {
            lemma_search_bounds(f, low + 1, right);
        }
    }
}

/// The error of an operation that needs the stored lines of a `TextData` whose text was discarded.
#[derive(Clone, Copy, PartialEq, Eq, Debug, Structural)]
pub enum TextDataError {
    NoText,
}

/// Compiled matching data of a text: its fingerprint, the active view of its lines,
/// and, unless discarded, the normalized lines and the processed text of the view.
#[derive(Debug)]
pub struct TextData {
    match_data: NgramSet,
    lines_view: (usize, usize),
    lines_normalized: Option<Vec<String>>,
    text_processed: Option<String>,
}

impl TextData {
    /// The fingerprint: the bigrams of the active view.
    pub closed spec fn fingerprint(&self) -> Seq<Seq<char>> {
        self.match_data@
    }

    pub closed spec fn view(&self) -> (int, int) {
        (self.lines_view.0 as int, self.lines_view.1 as int)
    }

    /// The normalized lines of the whole text, unless discarded.
    pub closed spec fn stored_lines(&self) -> Option<Seq<Seq<char>>> {
        match self.lines_normalized {
            Some(ls) => Some(string_views(ls@)),
            None => None,
        }
    }

    /// The processed text of the active view, unless discarded.
    pub closed spec fn processed_text(&self) -> Option<Seq<char>> {
        match self.text_processed {
            Some(t) => Some(t@),
            None => None,
        }
    }

    /// The view lies within the stored lines, and the fingerprint and processed text
    /// are those of the view; without stored lines the view is empty and there is no text.
    pub open spec fn wf(&self) -> bool {
        match self.stored_lines() {
            Some(ls) => {
                &&& 0 <= self.view().0 <= self.view().1 <= ls.len()
                &&& self.fingerprint() == view_grams(ls, self.view().0, self.view().1)
                &&& self.processed_text() == Some(processed(view_text(ls, self.view().0, self.view().1)))
            },
            None => self.view() == (0int, 0int) && self.processed_text() is None,
        }
    }

    /// `self` is `other` with its text discarded.
    pub open spec fn is_text_free_copy(&self, other: &TextData) -> bool {
        &&& self.fingerprint() == other.fingerprint()
        &&& self.view() == (0int, 0int)
        &&& self.stored_lines() is None
        &&& self.processed_text() is None
    }

    /// Builds the fingerprint and processed text of the lines `start..end`.
    fn compile(lines: &Vec<String>, start: usize, end: usize) -> (r: (NgramSet, String))
        requires
            start <= end <= lines.len(),
        ensures
            r.0@ == view_grams(string_views(lines@), start as int, end as int),
            r.1@ == processed(view_text(string_views(lines@), start as int, end as int)),
    {
        let joined = join_lines(lines, start, end);
        let ws = words_of(&joined);
        let match_data = NgramSet::from_words(&ws);
        let processed = string_from_chars(&join_words(&ws));
        (match_data, processed)
    }

    /// Normalizes `text` into lines and fingerprints all of them.
    pub fn new(text: &str) -> (r: TextData)
        ensures
            r.wf(),
            r.stored_lines() == Some(normalize(text@)),
            r.view() == (0int, normalize(text@).len() as int),
            r.fingerprint() == view_grams(normalize(text@), 0, normalize(text@).len() as int),
    {
        let normalized = apply_normalizers(text);
        let n = normalized.len();
        let (match_data, processed) = TextData::compile(&normalized, 0, n);
        TextData {
            match_data,
            lines_view: (0, n),
            lines_normalized: Some(normalized),
            text_processed: Some(processed),
        }
    }

    /// Same as `new`, from a string slice.
    pub fn from_str(text: &str) -> (r: TextData)
        ensures
            r.wf(),
            r.stored_lines() == Some(normalize(text@)),
            r.view() == (0int, normalize(text@).len() as int),
            r.fingerprint() == view_grams(normalize(text@), 0, normalize(text@).len() as int),
    {
        TextData::new(text)
    }

    /// Same as `new`, from an owned string.
    pub fn from_string(text: String) -> (r: TextData)
        ensures
            r.wf(),
            r.stored_lines() == Some(normalize(text@)),
            r.view() == (0int, normalize(text@).len() as int),
            r.fingerprint() == view_grams(normalize(text@), 0, normalize(text@).len() as int),
    {
        TextData::new(text.as_str())
    }

    /// Drops the stored lines and processed text, keeping the fingerprint.
    pub fn without_text(self) -> (r: TextData)
        ensures
            r.wf(),
            r.is_text_free_copy(&self),
    {
        TextData {
            match_data: self.match_data,
            lines_view: (0, 0),
            lines_normalized: None,
            text_processed: None,
        }
    }

    /// The bounds `(start, end)` of the active view.
    pub fn lines_view(&self) -> (r: (usize, usize))
        ensures
            (r.0 as int, r.1 as int) == self.view(),
    {
        self.lines_view
    }

    /// The normalized lines of the active view, or `None` when the text was discarded.
    pub fn lines(&self) -> (r: Option<&[String]>)
        requires
            self.wf(),
        ensures
            match self.stored_lines() {
                Some(ls) => r is Some && string_views(r->0@) == ls.subrange(self.view().0, self.view().1)
                    && r->0@.len() == self.view().1 - self.view().0,
                None => r is None,
            },
    {
        match &self.lines_normalized {
            Some(lines) => {
                let s = &lines.as_slice()[self.lines_view.0..self.lines_view.1];
                assert(string_views(s@) =~= string_views(lines@).subrange(
                    self.view().0,
                    self.view().1,
                ));
                Some(s)
            },
            None => None,
        }
    }

    /// The similarity of the two fingerprints: their Dice coefficient.
    pub fn match_score(&self, other: &TextData) -> (r: Score)
        ensures
            r.wf(),
            r.num <= r.den,
            score_of(r) == dice(self.fingerprint(), other.fingerprint()),
    {
        self.match_data.dice(&other.match_data)
    }

    /// Whether the two fingerprints are equal as multisets of grams.
    pub fn eq_data(&self, other: &TextData) -> (r: bool)
        ensures
            r == (self.fingerprint().to_multiset() == other.fingerprint().to_multiset()),
    {
        self.match_data.same_grams(&other.match_data)
    }

    /// The score with the moving boundary at `i`, taken from the memo when it is there.
    fn check_score(
        &self,
        reference: &TextData,
        fixed: usize,
        moving_end: bool,
        memo: &mut HashMap<usize, Score>,
        Ghost(f): Ghost<spec_fn(int) -> (nat, nat)>,
        i: usize,
    ) -> (r: Score)
        requires
            self.wf(),
            self.stored_lines() is Some,
            f == probe_fn(self.stored_lines()->0, reference.fingerprint(), fixed as int, moving_end),
            probe_in_range(self.stored_lines()->0.len() as int, fixed as int, moving_end, i as int),
            memo_ok(old(memo)@, f),
        ensures
            memo_ok(final(memo)@, f),
            r.wf(),
            score_of(r) == f(i as int),
    {
        match memo.get(&i) {
            Some(s) => {
                return *s;
            },
            None => {},
        }
        let view = if moving_end {
            self.with_view(fixed, i)
        } else {
            self.with_view(i, fixed)
        };
        let s = view.unwrap().match_score(reference);
        memo.insert(i, s);
        s
    }

    /// The bounded ternary search over `left..=right`, with scores memoized in `memo`.
    fn search(
        &self,
        reference: &TextData,
        fixed: usize,
        moving_end: bool,
        memo: &mut HashMap<usize, Score>,
        Ghost(f): Ghost<spec_fn(int) -> (nat, nat)>,
        left: usize,
        right: usize,
    ) -> (r: (usize, Score))
        requires
            self.wf(),
            self.stored_lines() is Some,
            f == probe_fn(self.stored_lines()->0, reference.fingerprint(), fixed as int, moving_end),
            left <= right,
            probe_in_range(self.stored_lines()->0.len() as int, fixed as int, moving_end, left as int),
            probe_in_range(self.stored_lines()->0.len() as int, fixed as int, moving_end, right as int),
            memo_ok(old(memo)@, f),
        ensures
            memo_ok(final(memo)@, f),
            r.1.wf(),
            r.0 as int == search_spec(f, left as int, right as int).0,
            score_of(r.1) == search_spec(f, left as int, right as int).1,
        decreases right - left,
    {
        if right - left <= 3 {
            let mut best: (usize, Score) = (0, Score::zero());
            let count = right - left + 1;
            let mut k: usize = 0;
            while k < count
                invariant
                    self.wf(),
                    self.stored_lines() is Some,
                    f == probe_fn(self.stored_lines()->0, reference.fingerprint(), fixed as int, moving_end),
                    left <= right,
                    count == right - left + 1,
                    k <= count,
                    probe_in_range(self.stored_lines()->0.len() as int, fixed as int, moving_end, left as int),
                    probe_in_range(self.stored_lines()->0.len() as int, fixed as int, moving_end, right as int),
                    memo_ok(memo@, f),
                    best.1.wf(),
                    best.0 as int == best_upto(f, left as int, left + k - 1).0,
                    score_of(best.1) == best_upto(f, left as int, left + k - 1).1,
                decreases count - k,
            {
                let i = left + k;
                let s = self.check_score(reference, fixed, moving_end, memo, Ghost(f), i);
                if !best.1.greater_than(&s) {
                    best = (i, s);
                }
                k = k + 1;
            }
            best
        } else {
            let d = right - left;
            let low = left + d / 3;
            let high = left + (d / 3) * 2 + (d % 3) * 2 / 3;
            assert(low as int == (2 * left + right) / 3);
            assert(high as int == (left + 2 * right) / 3);
            let score_low = self.check_score(reference, fixed, moving_end, memo, Ghost(f), low);
            let score_high = self.check_score(reference, fixed, moving_end, memo, Ghost(f), high);
            if score_low.greater_than(&score_high) {
                self.search(reference, fixed, moving_end, memo, Ghost(f), left, high - 1)
            } else {
                self.search(reference, fixed, moving_end, memo, Ghost(f), low + 1, right)
            }
        }
    }

    /// Narrows the view to the lines that best match `other`: first the end, from the
    /// current start, then the start, up to that end. Returns the narrowed copy and its score.
    pub fn optimize_bounds(&self, other: &TextData) -> (r: (TextData, Score))
        requires
            self.wf(),
            self.stored_lines() is Some,
        ensures
            ({
                let ls = self.stored_lines()->0;
                let b = optimized_bounds(ls, other.fingerprint(), self.view().0, self.view().1);
                &&& r.0.wf()
                &&& r.0.stored_lines() == Some(ls)
                &&& r.0.view() == b
                &&& r.0.fingerprint() == view_grams(ls, b.0, b.1)
                &&& score_of(r.1) == dice(r.0.fingerprint(), other.fingerprint())
            }),
            r.1.wf(),
    {
        let start = self.lines_view.0;
        let end = self.lines_view.1;
        let ghost ls = self.stored_lines()->0;
        let ghost fe = end_probe(ls, other.fingerprint(), start as int);
        let mut memo: HashMap<usize, Score> = HashMap::new();
        let (new_end, _) = self.search(other, start, true, &mut memo, Ghost(fe), start, end);
        proof {
            lemma_search_bounds(fe, start as int, end as int);
        }
        let end_optimized = self.with_view(start, new_end).unwrap();
        let ghost fs = start_probe(ls, other.fingerprint(), new_end as int);
        let mut memo: HashMap<usize, Score> = HashMap::new();
        let (new_start, score) = end_optimized.search(
            other,
            new_end,
            false,
            &mut memo,
            Ghost(fs),
            start,
            new_end,
        );
        proof {
            lemma_search_bounds(fs, start as int, new_end as int);
        }
        let optimized = end_optimized.with_view(new_start, new_end).unwrap();
        (optimized, score)
    }

    /// A copy with the view `start..end` of the stored lines, fingerprinted anew.
    pub fn with_view(&self, start: usize, end: usize) -> (r: Result<TextData, TextDataError>)
        requires
            self.wf(),
            self.stored_lines() is Some ==> start <= end <= self.stored_lines()->0.len(),
        ensures
            match self.stored_lines() {
                Some(ls) => r is Ok && r->Ok_0.wf() && r->Ok_0.stored_lines() == Some(ls)
                    && r->Ok_0.view() == (start as int, end as int)
                    && r->Ok_0.fingerprint() == view_grams(ls, start as int, end as int),
                None => r == Err::<TextData, TextDataError>(TextDataError::NoText),
            },
    {
        match &self.lines_normalized {
            Some(lines) => {
                let (match_data, processed) = TextData::compile(lines, start, end);
                Ok(
                    TextData {
                        match_data,
                        lines_view: (start, end),
                        lines_normalized: Some(lines.clone()),
                        text_processed: Some(processed),
                    },
                )
            },
            None => Err(TextDataError::NoText),
        }
    }
}

impl<'a> From<&'a str> for TextData {
    /// Same as `TextData::new`.
    fn from(text: &'a str) -> TextData {
        TextData::new(text)
    }
}

impl<'a> vstd::std_specs::convert::FromSpecImpl<&'a str> for TextData {
    open spec fn obeys_from_spec() -> bool {
        false
    }

    open spec fn from_spec(v: &'a str) -> TextData {
        arbitrary()
    }
}

impl From<String> for TextData {
    /// Same as `TextData::new`.
    fn from(text: String) -> TextData {
        TextData::new(text.as_str())
    }
}

impl vstd::std_specs::convert::FromSpecImpl<String> for TextData {
    open spec fn obeys_from_spec() -> bool {
        false
    }

    open spec fn from_spec(v: String) -> TextData {
        arbitrary()
    }
}

/// A text scores a perfect match against itself.
pub proof fn lemma_score_reflexive(a: TextData)
    ensures
        dice(a.fingerprint(), a.fingerprint()).0 == dice(a.fingerprint(), a.fingerprint()).1,
        dice(a.fingerprint(), a.fingerprint()).1 > 0,
{
    broadcast use vstd::multiset::lemma_intersection_count, vstd::seq_lib::group_to_multiset_ensures;

    let m = a.fingerprint().to_multiset();
    assert(m.intersection_with(m) =~= m);
}

/// Texts with equal fingerprints, as multisets, score a perfect match against each other
/// and the same against any third text.
pub proof fn lemma_equal_fingerprints_score_alike(a: TextData, b: TextData, c: TextData)
    requires
        a.fingerprint().to_multiset() == b.fingerprint().to_multiset(),
    ensures
        dice(a.fingerprint(), b.fingerprint()).0 == dice(a.fingerprint(), b.fingerprint()).1,
        dice(a.fingerprint(), c.fingerprint()) == dice(b.fingerprint(), c.fingerprint()),
        dice(c.fingerprint(), a.fingerprint()) == dice(c.fingerprint(), b.fingerprint()),
{
    broadcast use vstd::multiset::lemma_intersection_count, vstd::seq_lib::group_to_multiset_ensures;

    let m = a.fingerprint().to_multiset();
    assert(m.intersection_with(m) =~= m);
    a.fingerprint().to_multiset_ensures();
    b.fingerprint().to_multiset_ensures();
    assert(a.fingerprint().len() == b.fingerprint().len());
}

/// The score of `a` against `b` is the score of `b` against `a`.
pub proof fn lemma_score_symmetric(a: TextData, b: TextData)
    ensures
        dice(a.fingerprint(), b.fingerprint()) == dice(b.fingerprint(), a.fingerprint()),
{
    broadcast use vstd::multiset::lemma_intersection_count;

    let ma = a.fingerprint().to_multiset();
    let mb = b.fingerprint().to_multiset();
    assert(ma.intersection_with(mb) =~= mb.intersection_with(ma));
}

/// Discarding the text of either side leaves every score unchanged.
pub proof fn lemma_discard_keeps_score(a: TextData, discarded: TextData, b: TextData)
    requires
        discarded.is_text_free_copy(&a),
    ensures
        dice(discarded.fingerprint(), b.fingerprint()) == dice(a.fingerprint(), b.fingerprint()),
        dice(b.fingerprint(), discarded.fingerprint()) == dice(b.fingerprint(), a.fingerprint()),
{
}

/// Discarding the text twice gives what discarding it once gives.
pub proof fn lemma_discard_idempotent(a: TextData, once: TextData, twice: TextData)
    requires
        once.is_text_free_copy(&a),
        twice.is_text_free_copy(&once),
    ensures
        twice.fingerprint() == once.fingerprint(),
        twice.view() == once.view(),
        twice.stored_lines() == once.stored_lines(),
        twice.processed_text() == once.processed_text(),
        twice.wf() && once.wf(),
{
}

} // verus!
