//! The Naive Bayes model: training from labeled rows and
//! maximum-a-posteriori prediction for query rows.
//!
//! A training row is a sequence of cells whose first cell is the disease
//! label; the remaining cells are symptom tokens. Tokens are trimmed,
//! empty tokens dropped, and repeats within a row ignored, identically for
//! training and query rows. The fitted model keeps exact counts:
//!
//! * the prior of disease `d` is `priors[d] / total`,
//! * the smoothed likelihood of symptom `s` given `d` is
//!   `(counts[d][s] + 1) / (occ[d] + |vocab|)`,
//!
//! and prediction compares products of these rationals exactly, by
//! cross-multiplication over arbitrary-precision integers, so no floating
//! point is involved anywhere.
use vstd::prelude::*;
use vstd::arithmetic::power::pow;
use crate::bignat::BigNat;

verus! {

/// An error while fitting the model.
#[derive(Clone, Copy, Debug, PartialEq, Eq, Structural)]
pub enum TrainError {
    /// A training row has no cells at all, so its label is missing.
    MalformedRow,
    /// No training rows were supplied; no prior can be formed.
    EmptyTrainingSet,
}

/// An error while predicting.
#[derive(Clone, Copy, Debug, PartialEq, Eq, Structural)]
pub enum PredictError {
    /// A query symptom does not occur in the training vocabulary.
    UnknownSymptom,
}

/// What `str::trim` returns, as a function of the characters alone.
pub uninterp spec fn trim_of(s: Seq<char>) -> Seq<char>;

/// Relies on `str::trim`: returns the string with leading and trailing
/// whitespace removed; the result depends on the characters alone.
#[verifier::external_body]
fn trim_token(s: &String) -> (r: String)
    ensures
        r@ == trim_of(s@),
{
    s.trim().to_owned()
}

/// The character sequences of a sequence of strings.
pub open spec fn str_views(ts: Seq<String>) -> Seq<Seq<char>> {
    ts.map_values(|t: String| t@)
}

/// The character sequences of every cell of every row.
pub open spec fn rows_views(rs: Seq<Vec<String>>) -> Seq<Seq<Seq<char>>> {
    rs.map_values(|r: Vec<String>| str_views(r@))
}

/// All cells of a row but the first (the label cell).
pub open spec fn tail_of(row: Seq<Seq<char>>) -> Seq<Seq<char>> {
    if row.len() <= 1 {
        Seq::empty()
    } else {
        row.skip(1)
    }
}

/// Normalization shared by training and query rows: trim every token,
/// drop tokens that are empty after trimming, and keep only the first
/// occurrence of each token.
pub open spec fn norm_tokens(cells: Seq<Seq<char>>) -> Seq<Seq<char>>
    decreases cells.len(),
{
    if cells.len() == 0 {
        Seq::empty()
    } else {
        let rest = norm_tokens(cells.drop_last());
        let t = trim_of(cells.last());
        if t.len() == 0 || rest.contains(t) {
            rest
        } else {
            rest.push(t)
        }
    }
}

/// The label cell of a row.
pub open spec fn row_label(row: Seq<Seq<char>>) -> Seq<char> {
    row[0]
}

/// The normalized symptom tokens of a row.
pub open spec fn row_symptoms(row: Seq<Seq<char>>) -> Seq<Seq<char>> {
    norm_tokens(tail_of(row))
}

/// Total number of cells over all rows; bounds every count in the model.
pub open spec fn cells_count(rows: Seq<Seq<Seq<char>>>) -> nat
    decreases rows.len(),
{
    if rows.len() == 0 {
        0
    } else {
        cells_count(rows.drop_last()) + rows.last().len()
    }
}

/// `v` extended with those tokens of `toks` not yet present, in order.
pub open spec fn merge_tokens(v: Seq<Seq<char>>, toks: Seq<Seq<char>>) -> Seq<Seq<char>>
    decreases toks.len(),
{
    if toks.len() == 0 {
        v
    } else {
        let w = merge_tokens(v, toks.drop_last());
        if w.contains(toks.last()) {
            w
        } else {
            w.push(toks.last())
        }
    }
}

/// The vocabulary: every distinct normalized symptom token of the
/// training set, in order of first appearance.
pub open spec fn vocab_of(rows: Seq<Seq<Seq<char>>>) -> Seq<Seq<char>>
    decreases rows.len(),
{
    if rows.len() == 0 {
        Seq::empty()
    } else {
        merge_tokens(vocab_of(rows.drop_last()), row_symptoms(rows.last()))
    }
}

/// Every distinct disease label of the training set, in order of first
/// appearance.
pub open spec fn labels_of(rows: Seq<Seq<Seq<char>>>) -> Seq<Seq<char>>
    decreases rows.len(),
{
    if rows.len() == 0 {
        Seq::empty()
    } else {
        let l = labels_of(rows.drop_last());
        if l.contains(row_label(rows.last())) {
            l
        } else {
            l.push(row_label(rows.last()))
        }
    }
}

/// Number of training rows labeled `lab`.
pub open spec fn label_rows(rows: Seq<Seq<Seq<char>>>, lab: Seq<char>) -> nat
    decreases rows.len(),
{
    if rows.len() == 0 {
        0
    } else {
        label_rows(rows.drop_last(), lab)
            + if row_label(rows.last()) == lab { 1nat } else { 0nat }
    }
}

/// Sum of the symptom-set sizes of the rows labeled `lab` (the Laplace
/// smoothing denominator is this plus the vocabulary size).
pub open spec fn label_occurrences(rows: Seq<Seq<Seq<char>>>, lab: Seq<char>) -> nat
    decreases rows.len(),
{
    if rows.len() == 0 {
        0
    } else {
        label_occurrences(rows.drop_last(), lab)
            + if row_label(rows.last()) == lab { row_symptoms(rows.last()).len() } else { 0nat }
    }
}

/// Number of rows labeled `lab` whose symptom set contains `s`.
pub open spec fn symptom_rows(rows: Seq<Seq<Seq<char>>>, lab: Seq<char>, s: Seq<char>) -> nat
    decreases rows.len(),
{
    if rows.len() == 0 {
        0
    } else {
        symptom_rows(rows.drop_last(), lab, s)
            + if row_label(rows.last()) == lab && row_symptoms(rows.last()).contains(s) {
                1nat
            } else {
                0nat
            }
    }
}

/// The mathematical content of a fitted model.
pub ghost struct SpecModel {
    /// Total number of training rows.
    pub total: nat,
    /// Distinct symptom tokens, in order of first appearance.
    pub vocab: Seq<Seq<char>>,
    /// Distinct disease labels, in order of first appearance.
    pub labels: Seq<Seq<char>>,
    /// Per disease: how many rows carry that label (prior numerator).
    pub priors: Seq<nat>,
    /// Per disease: sum of its rows' symptom-set sizes.
    pub occ: Seq<nat>,
    /// Per disease and vocabulary index: in how many of its rows the
    /// symptom occurs.
    pub counts: Seq<Seq<nat>>,
}

/// Counts may not reach this bound, so every smoothing denominator and
/// every factor of a score fits in a machine word.
pub open spec fn count_limit() -> int {
    0x8000_0000_0000_0000
}

/// The model a correct trainer must produce from `rows`.
pub open spec fn model_of(rows: Seq<Seq<Seq<char>>>) -> SpecModel {
    let labels = labels_of(rows);
    let vocab = vocab_of(rows);
    SpecModel {
        total: rows.len(),
        vocab: vocab,
        labels: labels,
        priors: Seq::new(labels.len(), |d: int| label_rows(rows, labels[d])),
        occ: Seq::new(labels.len(), |d: int| label_occurrences(rows, labels[d])),
        counts: Seq::new(
            labels.len(),
            |d: int| Seq::new(vocab.len(), |s: int| symptom_rows(rows, labels[d], vocab[s])),
        ),
    }
}

impl SpecModel {
    /// Well-formedness: shapes agree, names are distinct, at least one
    /// disease exists, and every count respects its bounding count.
    pub open spec fn wf(self) -> bool {
        &&& self.labels.len() >= 1
        &&& self.total >= 1
        &&& self.priors.len() == self.labels.len()
        &&& self.occ.len() == self.labels.len()
        &&& self.counts.len() == self.labels.len()
        &&& forall|d: int|
            0 <= d < self.labels.len() ==> (#[trigger] self.counts[d]).len() == self.vocab.len()
        &&& self.vocab.no_duplicates()
        &&& self.labels.no_duplicates()
        &&& forall|d: int|
            0 <= d < self.labels.len() ==> 1 <= #[trigger] self.priors[d] <= self.total
        &&& forall|d: int, s: int|
            0 <= d < self.labels.len() && 0 <= s < self.vocab.len()
                ==> #[trigger] self.counts[d][s] <= self.occ[d]
                && self.counts[d][s] <= self.priors[d]
        &&& self.total < count_limit()
        &&& self.vocab.len() < count_limit()
        &&& forall|d: int| 0 <= d < self.labels.len() ==> #[trigger] self.occ[d] < count_limit()
    }

    /// Product over the query of the numerators `counts[d][s] + 1` of the
    /// smoothed likelihoods; `q` holds vocabulary indices.
    pub open spec fn factor_product(self, d: int, q: Seq<int>) -> int
        decreases q.len(),
    {
        if q.len() == 0 {
            1
        } else {
            self.factor_product(d, q.drop_last()) * (self.counts[d][q.last()] + 1)
        }
    }

    /// Numerator of the posterior score of disease `d`.
    pub open spec fn score_numer(self, d: int, q: Seq<int>) -> int {
        self.priors[d] * self.factor_product(d, q)
    }

    /// The common denominator of all of `d`'s smoothed likelihoods.
    pub open spec fn smooth_denom(self, d: int) -> int {
        self.occ[d] + self.vocab.len() as int
    }

    /// Denominator of the posterior score of disease `d`.
    pub open spec fn score_denom(self, d: int, q: Seq<int>) -> int {
        self.total * pow(self.smooth_denom(d), q.len())
    }

    /// The score of disease `a` strictly exceeds the score of disease `b`:
    /// the scores are the rationals `score_numer / score_denom`, compared
    /// by cross-multiplication.
    pub open spec fn score_exceeds(self, a: int, b: int, q: Seq<int>) -> bool {
        self.score_numer(a, q) * self.score_denom(b, q)
            > self.score_numer(b, q) * self.score_denom(a, q)
    }

    /// Index of the winning disease among the first `k`: the first disease
    /// whose score strictly exceeds the score of every disease before it,
    /// so ties keep the earlier-seen disease.
    pub open spec fn best_label(self, q: Seq<int>, k: int) -> int
        decreases k,
    {
        if k <= 1 {
            0
        } else {
            let p = self.best_label(q, k - 1);
            if self.score_exceeds(k - 1, p, q) {
                k - 1
            } else {
                p
            }
        }
    }

    /// The vocabulary index of each query token.
    pub open spec fn query_indices(self, q: Seq<Seq<char>>) -> Seq<int> {
        q.map_values(|t: Seq<char>| self.vocab.index_of(t))
    }

    /// Every token of the (already normalized) query is in the vocabulary.
    pub open spec fn known_query(self, q: Seq<Seq<char>>) -> bool {
        forall|j: int| 0 <= j < q.len() ==> self.vocab.contains(#[trigger] q[j])
    }

    /// The label a correct predictor must return for the raw query cells.
    pub open spec fn prediction(self, cells: Seq<Seq<char>>) -> Seq<char> {
        let q = self.query_indices(norm_tokens(tail_of(cells)));
        self.labels[self.best_label(q, self.labels.len() as int)]
    }
}

/// A fitted Naive Bayes classifier, as exact per-disease counts.
pub struct NaiveBayesClassifier {
    /// Total number of training rows.
    pub total: u64,
    /// Distinct symptom tokens, in order of first appearance.
    pub vocab: Vec<String>,
    /// Distinct disease labels, in order of first appearance.
    pub labels: Vec<String>,
    /// Per disease: number of rows with that label.
    pub priors: Vec<u64>,
    /// Per disease: sum of its rows' symptom-set sizes.
    pub occ: Vec<u64>,
    /// Per disease and vocabulary index: rows of the disease containing
    /// the symptom.
    pub counts: Vec<Vec<u64>>,
}

impl View for NaiveBayesClassifier {
    type V = SpecModel;

    open spec fn view(&self) -> SpecModel {
        SpecModel {
            total: self.total as nat,
            vocab: str_views(self.vocab@),
            labels: str_views(self.labels@),
            priors: self.priors@.map_values(|x: u64| x as nat),
            occ: self.occ@.map_values(|x: u64| x as nat),
            counts: self.counts@.map_values(|c: Vec<u64>| c@.map_values(|x: u64| x as nat)),
        }
    }
}

impl NaiveBayesClassifier {
    /// The classifier's counts form a well-formed model.
    pub open spec fn wf(self) -> bool {
        self@.wf()
    }
}

/// Whether some string of `v` has exactly the characters of `t`.
fn token_list_contains(v: &Vec<String>, t: &String) -> (r: bool)
    ensures
        r == str_views(v@).contains(t@),
{
    let mut i: usize = 0;
    while i < v.len()
        invariant
            i <= v@.len(),
            forall|k: int| 0 <= k < i ==> str_views(v@)[k] != t@,
        decreases v@.len() - i,
    {
        if v[i].eq(t) {
            assert(str_views(v@)[i as int] == t@);
            return true;
        }
        i += 1;
    }
    false
}

/// The position of the string of `v` with exactly the characters of `t`.
fn token_index(v: &Vec<String>, t: &String) -> (r: Option<usize>)
    ensures
        match r {
            Some(i) => i < v@.len() && str_views(v@)[i as int] == t@,
            None => !str_views(v@).contains(t@),
        },
{
    let mut i: usize = 0;
    while i < v.len()
        invariant
            i <= v@.len(),
            forall|k: int| 0 <= k < i ==> str_views(v@)[k] != t@,
        decreases v@.len() - i,
    {
        if v[i].eq(t) {
            assert(str_views(v@)[i as int] == t@);
            return Some(i);
        }
        i += 1;
    }
    None
}

/// Normalize the symptom cells of one raw row (skipping the label cell):
/// trim, drop empties, deduplicate keeping first occurrences. The same
/// rule applies to training and query rows, so a symptom spelled
/// identically maps to the same vocabulary entry in both phases.
pub fn normalize_row(cells: &Vec<String>) -> (out: Vec<String>)
    ensures
        str_views(out@) == norm_tokens(tail_of(str_views(cells@))),
{
    let ghost q_cells = tail_of(str_views(cells@));
    let mut out: Vec<String> = Vec::new();
    if cells.len() <= 1 {
        proof {
            assert(str_views(out@) =~= norm_tokens(q_cells));
        }
        return out;
    }
    let mut j: usize = 1;
    while j < cells.len()
        invariant
            1 <= j <= cells@.len(),
            cells@.len() > 1,
            q_cells == tail_of(str_views(cells@)),
            q_cells.len() == cells@.len() - 1,
            str_views(out@) == norm_tokens(q_cells.take(j - 1)),
        decreases cells@.len() - j,
    {
        let t = trim_token(&cells[j]);
        proof {
            assert(q_cells.take(j as int).drop_last() =~= q_cells.take(j - 1));
            assert(q_cells.take(j as int).last() == str_views(cells@)[j as int]);
        }
        let ghost pre = out@;
        if !t.as_str().is_empty() && !token_list_contains(&out, &t) {
            out.push(t);
            proof {
                assert(str_views(out@) =~= str_views(pre).push(t@));
            }
        }
        proof {
            assert(str_views(out@) =~= norm_tokens(q_cells.take(j as int)));
        }
        j += 1;
    }
    proof {
        assert(q_cells.take(cells@.len() - 1) =~= q_cells);
    }
    out
}

pub proof fn lemma_contains_push(s: Seq<Seq<char>>, t: Seq<char>, x: Seq<char>)
    requires
        s.contains(x),
    ensures
        s.push(t).contains(x),
{
    let i = choose|i: int| 0 <= i < s.len() && s[i] == x;
    assert(s.push(t)[i] == x);
}

proof fn lemma_push_distinct(s: Seq<Seq<char>>, t: Seq<char>)
    requires
        s.no_duplicates(),
        !s.contains(t),
    ensures
        s.push(t).no_duplicates(),
{
    let r = s.push(t);
    assert forall|i: int, j: int|
        0 <= i < r.len() && 0 <= j < r.len() && i != j implies r[i] != r[j] by {
        if i < s.len() && j < s.len() {
        } else if i < s.len() && j == s.len() {
            if r[i] == t {
                assert(s.contains(t));
            }
        } else if j < s.len() && i == s.len() {
            if r[j] == t {
                assert(s.contains(t));
            }
        }
    }
}

/// Normalization never yields more tokens than there were cells.
pub proof fn lemma_norm_tokens_len(cells: Seq<Seq<char>>)
    ensures
        norm_tokens(cells).len() <= cells.len(),
    decreases cells.len(),
{
    if cells.len() > 0 {
        lemma_norm_tokens_len(cells.drop_last());
    }
}

proof fn lemma_merge_len(v: Seq<Seq<char>>, toks: Seq<Seq<char>>)
    ensures
        v.len() <= merge_tokens(v, toks).len() <= v.len() + toks.len(),
    decreases toks.len(),
{
    if toks.len() > 0 {
        lemma_merge_len(v, toks.drop_last());
    }
}

proof fn lemma_merge_no_dup(v: Seq<Seq<char>>, toks: Seq<Seq<char>>)
    requires
        v.no_duplicates(),
    ensures
        merge_tokens(v, toks).no_duplicates(),
    decreases toks.len(),
{
    if toks.len() > 0 {
        lemma_merge_no_dup(v, toks.drop_last());
        let w = merge_tokens(v, toks.drop_last());
        if !w.contains(toks.last()) {
            lemma_push_distinct(w, toks.last());
        }
    }
}

/// The vocabulary is duplicate-free.
pub proof fn lemma_vocab_no_dup(rows: Seq<Seq<Seq<char>>>)
    ensures
        vocab_of(rows).no_duplicates(),
    decreases rows.len(),
{
    if rows.len() > 0 {
        lemma_vocab_no_dup(rows.drop_last());
        lemma_merge_no_dup(vocab_of(rows.drop_last()), row_symptoms(rows.last()));
    }
}

/// The vocabulary has at most one entry per training cell.
pub proof fn lemma_vocab_len(rows: Seq<Seq<Seq<char>>>)
    ensures
        vocab_of(rows).len() <= cells_count(rows),
    decreases rows.len(),
{
    if rows.len() > 0 {
        lemma_vocab_len(rows.drop_last());
        lemma_merge_len(vocab_of(rows.drop_last()), row_symptoms(rows.last()));
        lemma_norm_tokens_len(tail_of(rows.last()));
    }
}

/// The label list is duplicate-free.
pub proof fn lemma_labels_no_dup(rows: Seq<Seq<Seq<char>>>)
    ensures
        labels_of(rows).no_duplicates(),
    decreases rows.len(),
{
    if rows.len() > 0 {
        lemma_labels_no_dup(rows.drop_last());
        let l = labels_of(rows.drop_last());
        if !l.contains(row_label(rows.last())) {
            lemma_push_distinct(l, row_label(rows.last()));
        }
    }
}

/// Every row's label occurs in the label list.
pub proof fn lemma_labels_of_contains(rows: Seq<Seq<Seq<char>>>, i: int)
    requires
        0 <= i < rows.len(),
    ensures
        labels_of(rows).contains(row_label(rows[i])),
    decreases rows.len(),
{
    let l = labels_of(rows.drop_last());
    let x = row_label(rows.last());
    if i == rows.len() - 1 {
        if l.contains(x) {
        } else {
            assert(labels_of(rows).last() == x);
        }
    } else {
        assert(rows.drop_last()[i] == rows[i]);
        lemma_labels_of_contains(rows.drop_last(), i);
        if !l.contains(x) {
            lemma_contains_push(l, x, row_label(rows[i]));
        }
    }
}

/// A label that occurs in the label list labels at least one row.
pub proof fn lemma_label_rows_pos(rows: Seq<Seq<Seq<char>>>, lab: Seq<char>)
    requires
        labels_of(rows).contains(lab),
    ensures
        label_rows(rows, lab) >= 1,
    decreases rows.len(),
{
    if rows.len() > 0 {
        let l = labels_of(rows.drop_last());
        if row_label(rows.last()) == lab {
        } else {
            if l.contains(lab) {
                lemma_label_rows_pos(rows.drop_last(), lab);
            } else {
                assert(labels_of(rows) == l.push(row_label(rows.last())));
                let i = choose|i: int|
                    0 <= i < labels_of(rows).len() && labels_of(rows)[i] == lab;
                assert(l[i] == lab);
            }
        }
    }
}

/// No label labels more rows than there are.
pub proof fn lemma_label_rows_le(rows: Seq<Seq<Seq<char>>>, lab: Seq<char>)
    ensures
        label_rows(rows, lab) <= rows.len(),
    decreases rows.len(),
{
    if rows.len() > 0 {
        lemma_label_rows_le(rows.drop_last(), lab);
    }
}

/// A disease's occurrence sum is bounded by the total cell count.
pub proof fn lemma_label_occurrences_le(rows: Seq<Seq<Seq<char>>>, lab: Seq<char>)
    ensures
        label_occurrences(rows, lab) <= cells_count(rows),
    decreases rows.len(),
{
    if rows.len() > 0 {
        lemma_label_occurrences_le(rows.drop_last(), lab);
        lemma_norm_tokens_len(tail_of(rows.last()));
    }
}

/// A symptom's row count for a disease is bounded both by the disease's
/// row count and by its occurrence sum: each counted row has the label
/// and contributes at least one occurrence.
pub proof fn lemma_symptom_rows_le(rows: Seq<Seq<Seq<char>>>, lab: Seq<char>, s: Seq<char>)
    ensures
        symptom_rows(rows, lab, s) <= label_rows(rows, lab),
        symptom_rows(rows, lab, s) <= label_occurrences(rows, lab),
    decreases rows.len(),
{
    if rows.len() > 0 {
        lemma_symptom_rows_le(rows.drop_last(), lab, s);
        if row_label(rows.last()) == lab && row_symptoms(rows.last()).contains(s) {
            assert(row_symptoms(rows.last()).len() >= 1);
        }
    }
}

/// When every row has at least its label cell, there are at least as
/// many cells as rows.
pub proof fn lemma_rows_le_cells(rows: Seq<Seq<Seq<char>>>)
    requires
        forall|i: int| 0 <= i < rows.len() ==> (#[trigger] rows[i]).len() >= 1,
    ensures
        rows.len() <= cells_count(rows),
    decreases rows.len(),
{
    if rows.len() > 0 {
        assert(forall|i: int|
            0 <= i < rows.drop_last().len() ==> (#[trigger] rows.drop_last()[i]).len() >= 1);
        lemma_rows_le_cells(rows.drop_last());
    }
}

/// A prefix never has more cells than the whole.
pub proof fn lemma_cells_count_take(rows: Seq<Seq<Seq<char>>>, k: int)
    requires
        0 <= k <= rows.len(),
    ensures
        cells_count(rows.take(k)) <= cells_count(rows),
    decreases rows.len(),
{
    if k == rows.len() {
        assert(rows.take(k) =~= rows);
    } else {
        assert(rows.take(k) =~= rows.drop_last().take(k));
        lemma_cells_count_take(rows.drop_last(), k);
    }
}

/// How many rows carry the label `lab`.
fn count_label_rows(rows: &Vec<Vec<String>>, lab: &String) -> (r: u64)
    requires
        rows@.len() <= u64::MAX,
        forall|i: int| 0 <= i < rows@.len() ==> (#[trigger] rows@[i]@).len() >= 1,
    ensures
        r == label_rows(rows_views(rows@), lab@),
        r <= rows@.len(),
{
    let ghost rv = rows_views(rows@);
    let mut acc: u64 = 0;
    let mut i: usize = 0;
    while i < rows.len()
        invariant
            i <= rows@.len(),
            rows@.len() <= u64::MAX,
            rv == rows_views(rows@),
            forall|k: int| 0 <= k < rows@.len() ==> (#[trigger] rows@[k]@).len() >= 1,
            acc == label_rows(rv.take(i as int), lab@),
            acc <= i,
        decreases rows@.len() - i,
    {
        proof {
            assert(rv.take(i + 1).drop_last() =~= rv.take(i as int));
            assert(rv.take(i + 1).last() == rv[i as int]);
        }
        if rows[i][0].eq(lab) {
            assert(row_label(rv[i as int]) == lab@);
            acc = acc + 1;
        } else {
            assert(row_label(rv[i as int]) != lab@);
        }
        i += 1;
    }
    proof {
        assert(rv.take(rows@.len() as int) =~= rv);
    }
    acc
}

/// Sum of the symptom-set sizes of the rows labeled `lab`; `norm` holds
/// the rows' normalized symptom lists.
fn sum_label_occurrences(
    rows: &Vec<Vec<String>>,
    norm: &Vec<Vec<String>>,
    lab: &String,
) -> (r: u64)
    requires
        cells_count(rows_views(rows@)) < count_limit(),
        forall|i: int| 0 <= i < rows@.len() ==> (#[trigger] rows@[i]@).len() >= 1,
        norm@.len() == rows@.len(),
        forall|i: int|
            0 <= i < norm@.len()
                ==> str_views(#[trigger] norm@[i]@) == row_symptoms(rows_views(rows@)[i]),
    ensures
        r == label_occurrences(rows_views(rows@), lab@),
        r < count_limit(),
{
    let ghost rv = rows_views(rows@);
    let mut acc: u64 = 0;
    let mut i: usize = 0;
    while i < rows.len()
        invariant
            i <= rows@.len(),
            rv == rows_views(rows@),
            cells_count(rv) < count_limit(),
            forall|k: int| 0 <= k < rows@.len() ==> (#[trigger] rows@[k]@).len() >= 1,
            norm@.len() == rows@.len(),
            forall|k: int|
                0 <= k < norm@.len()
                    ==> str_views(#[trigger] norm@[k]@) == row_symptoms(rv[k]),
            acc == label_occurrences(rv.take(i as int), lab@),
            acc <= cells_count(rv.take(i as int)),
        decreases rows@.len() - i,
    {
        proof {
            assert(rv.take(i + 1).drop_last() =~= rv.take(i as int));
            assert(rv.take(i + 1).last() == rv[i as int]);
            lemma_cells_count_take(rv, i + 1);
            lemma_norm_tokens_len(tail_of(rv[i as int]));
            assert(str_views(norm@[i as int]@).len() == norm@[i as int]@.len());
        }
        if rows[i][0].eq(lab) {
            assert(row_label(rv[i as int]) == lab@);
            acc = acc + norm[i].len() as u64;
        } else {
            assert(row_label(rv[i as int]) != lab@);
        }
        i += 1;
    }
    proof {
        assert(rv.take(rows@.len() as int) =~= rv);
        lemma_cells_count_take(rv, rows@.len() as int);
    }
    acc
}

/// How many rows labeled `lab` contain the symptom `sym`.
fn count_symptom_rows(
    rows: &Vec<Vec<String>>,
    norm: &Vec<Vec<String>>,
    lab: &String,
    sym: &String,
) -> (r: u64)
    requires
        rows@.len() <= u64::MAX,
        forall|i: int| 0 <= i < rows@.len() ==> (#[trigger] rows@[i]@).len() >= 1,
        norm@.len() == rows@.len(),
        forall|i: int|
            0 <= i < norm@.len()
                ==> str_views(#[trigger] norm@[i]@) == row_symptoms(rows_views(rows@)[i]),
    ensures
        r == symptom_rows(rows_views(rows@), lab@, sym@),
        r <= rows@.len(),
{
    let ghost rv = rows_views(rows@);
    let mut acc: u64 = 0;
    let mut i: usize = 0;
    while i < rows.len()
        invariant
            i <= rows@.len(),
            rows@.len() <= u64::MAX,
            rv == rows_views(rows@),
            forall|k: int| 0 <= k < rows@.len() ==> (#[trigger] rows@[k]@).len() >= 1,
            norm@.len() == rows@.len(),
            forall|k: int|
                0 <= k < norm@.len()
                    ==> str_views(#[trigger] norm@[k]@) == row_symptoms(rv[k]),
            acc == symptom_rows(rv.take(i as int), lab@, sym@),
            acc <= i,
        decreases rows@.len() - i,
    {
        proof {
            assert(rv.take(i + 1).drop_last() =~= rv.take(i as int));
            assert(rv.take(i + 1).last() == rv[i as int]);
        }
        if rows[i][0].eq(lab) {
            assert(row_label(rv[i as int]) == lab@);
            if token_list_contains(&norm[i], sym) {
                acc = acc + 1;
            }
        } else {
            assert(row_label(rv[i as int]) != lab@);
        }
        i += 1;
    }
    proof {
        assert(rv.take(rows@.len() as int) =~= rv);
    }
    acc
}

impl NaiveBayesClassifier {
    /// Fit the model from raw training rows: cell 0 of a row is the
    /// disease label, the remaining cells are symptom tokens.
    ///
    /// The bound on the total cell count is a machine limit: it keeps
    /// every count of the model inside a 64-bit word.
    pub fn new(rows: &Vec<Vec<String>>) -> (r: Result<Self, TrainError>)
        requires
            cells_count(rows_views(rows@)) < count_limit(),
        ensures
            match r {
                Result::Ok(m) => {
                    &&& rows@.len() > 0
                    &&& forall|i: int|
                        0 <= i < rows@.len() ==> (#[trigger] rows@[i]@).len() >= 1
                    &&& m.wf()
                    &&& m@ == model_of(rows_views(rows@))
                },
                Result::Err(TrainError::EmptyTrainingSet) => rows@.len() == 0,
                Result::Err(TrainError::MalformedRow) => {
                    &&& rows@.len() > 0
                    &&& exists|i: int| 0 <= i < rows@.len() && (#[trigger] rows@[i]@).len() == 0
                },
            },
    {
        let ghost rv = rows_views(rows@);
        let nrows = rows.len();
        if nrows == 0 {
            return Result::Err(TrainError::EmptyTrainingSet);
        }

        // Reject rows that lack even a label cell, before any counting.
        let mut i: usize = 0;
        while i < nrows
            invariant
                i <= nrows,
                nrows == rows@.len(),
                forall|k: int| 0 <= k < i ==> (#[trigger] rows@[k]@).len() >= 1,
            decreases nrows - i,
        {
            if rows[i].len() == 0 {
                return Result::Err(TrainError::MalformedRow);
            }
            i += 1;
        }
        proof {
            lemma_rows_le_cells(rv);
        }

        // Normalize every row's symptom cells once.
        let mut norm: Vec<Vec<String>> = Vec::new();
        let mut i: usize = 0;
        while i < nrows
            invariant
                i <= nrows,
                nrows == rows@.len(),
                norm@.len() == i,
                forall|k: int|
                    0 <= k < i
                        ==> str_views(#[trigger] norm@[k]@) == row_symptoms(rows_views(rows@)[k]),
            decreases nrows - i,
        {
            let nr = normalize_row(&rows[i]);
            norm.push(nr);
            i += 1;
        }

        // The vocabulary: all distinct symptom tokens, in first-seen order.
        let mut vocab: Vec<String> = Vec::new();
        let mut i: usize = 0;
        while i < nrows
            invariant
                i <= nrows,
                nrows == rows@.len(),
                rv == rows_views(rows@),
                norm@.len() == nrows,
                forall|k: int|
                    0 <= k < nrows
                        ==> str_views(#[trigger] norm@[k]@) == row_symptoms(rv[k]),
                str_views(vocab@) == vocab_of(rv.take(i as int)),
            decreases nrows - i,
        {
            let ghost toks = row_symptoms(rv[i as int]);
            let mut j: usize = 0;
            while j < norm[i].len()
                invariant
                    0 <= i < nrows,
                    nrows == rows@.len(),
                    norm@.len() == nrows,
                    j <= norm@[i as int]@.len(),
                    toks == row_symptoms(rv[i as int]),
                    str_views(norm@[i as int]@) == toks,
                    str_views(vocab@) == merge_tokens(vocab_of(rv.take(i as int)), toks.take(j as int)),
                decreases norm@[i as int]@.len() - j,
            {
                proof {
                    assert(toks.take(j + 1).drop_last() =~= toks.take(j as int));
                    assert(toks.take(j + 1).last() == toks[j as int]);
                    assert(str_views(norm@[i as int]@)[j as int] == norm@[i as int]@[j as int]@);
                }
                let t = &norm[i][j];
                let ghost pre = vocab@;
                if !token_list_contains(&vocab, t) {
                    vocab.push(t.clone());
                    proof {
                        assert(str_views(vocab@) =~= str_views(pre).push(t@));
                    }
                }
                j += 1;
            }
            proof {
                assert(toks.take(toks.len() as int) =~= toks);
                assert(rv.take(i + 1).drop_last() =~= rv.take(i as int));
                assert(rv.take(i + 1).last() == rv[i as int]);
            }
            i += 1;
        }
        proof {
            assert(rv.take(nrows as int) =~= rv);
        }

        // The label list: all distinct labels, in first-seen order.
        let mut labels: Vec<String> = Vec::new();
        let mut i: usize = 0;
        while i < nrows
            invariant
                i <= nrows,
                nrows == rows@.len(),
                rv == rows_views(rows@),
                forall|k: int| 0 <= k < nrows ==> (#[trigger] rows@[k]@).len() >= 1,
                str_views(labels@) == labels_of(rv.take(i as int)),
            decreases nrows - i,
        {
            proof {
                assert(rv.take(i + 1).drop_last() =~= rv.take(i as int));
                assert(rv.take(i + 1).last() == rv[i as int]);
                assert(row_label(rv[i as int]) == rows@[i as int]@[0]@);
            }
            let t = &rows[i][0];
            let ghost pre = labels@;
            if !token_list_contains(&labels, t) {
                labels.push(t.clone());
                proof {
                    assert(str_views(labels@) =~= str_views(pre).push(t@));
                }
            }
            i += 1;
        }
        proof {
            assert(rv.take(nrows as int) =~= rv);
        }

        // Per-disease statistics against the full training set.
        let nlab = labels.len();
        let nvoc = vocab.len();
        let mut priors: Vec<u64> = Vec::new();
        let mut occ: Vec<u64> = Vec::new();
        let mut counts: Vec<Vec<u64>> = Vec::new();
        let mut li: usize = 0;
        while li < nlab
            invariant
                li <= nlab,
                nlab == labels@.len(),
                nvoc == vocab@.len(),
                nrows == rows@.len(),
                rv == rows_views(rows@),
                cells_count(rv) < count_limit(),
                nrows <= cells_count(rv),
                forall|k: int| 0 <= k < nrows ==> (#[trigger] rows@[k]@).len() >= 1,
                norm@.len() == nrows,
                forall|k: int|
                    0 <= k < nrows
                        ==> str_views(#[trigger] norm@[k]@) == row_symptoms(rv[k]),
                str_views(vocab@) == vocab_of(rv),
                str_views(labels@) == labels_of(rv),
                priors@.len() == li,
                occ@.len() == li,
                counts@.len() == li,
                forall|d: int|
                    0 <= d < li ==> #[trigger] priors@[d] == label_rows(rv, labels_of(rv)[d]),
                forall|d: int|
                    0 <= d < li ==> #[trigger] occ@[d] == label_occurrences(rv, labels_of(rv)[d]),
                forall|d: int| 0 <= d < li ==> (#[trigger] counts@[d])@.len() == nvoc,
                forall|d: int, s: int|
                    0 <= d < li && 0 <= s < nvoc
                        ==> #[trigger] counts@[d]@[s]
                            == symptom_rows(rv, labels_of(rv)[d], vocab_of(rv)[s]),
            decreases nlab - li,
        {
            let lab = &labels[li];
            proof {
                assert(lab@ == labels_of(rv)[li as int]);
            }
            let pr = count_label_rows(rows, lab);
            let oc = sum_label_occurrences(rows, &norm, lab);
            let mut crow: Vec<u64> = Vec::new();
            let mut vi: usize = 0;
            while vi < nvoc
                invariant
                    vi <= nvoc,
                    nvoc == vocab@.len(),
                    nrows == rows@.len(),
                    rv == rows_views(rows@),
                    nrows <= cells_count(rv),
                    cells_count(rv) < count_limit(),
                    forall|k: int| 0 <= k < nrows ==> (#[trigger] rows@[k]@).len() >= 1,
                    norm@.len() == nrows,
                    forall|k: int|
                        0 <= k < nrows
                            ==> str_views(#[trigger] norm@[k]@) == row_symptoms(rv[k]),
                    str_views(vocab@) == vocab_of(rv),
                    lab@ == labels_of(rv)[li as int],
                    0 <= li < labels_of(rv).len(),
                    crow@.len() == vi,
                    forall|s: int|
                        0 <= s < vi
                            ==> #[trigger] crow@[s]
                                == symptom_rows(rv, labels_of(rv)[li as int], vocab_of(rv)[s]),
                decreases nvoc - vi,
            {
                let sym = &vocab[vi];
                proof {
                    assert(sym@ == vocab_of(rv)[vi as int]);
                }
                let c = count_symptom_rows(rows, &norm, lab, sym);
                crow.push(c);
                vi += 1;
            }
            priors.push(pr);
            occ.push(oc);
            counts.push(crow);
            li += 1;
        }

        let m = NaiveBayesClassifier {
            total: nrows as u64,
            vocab,
            labels,
            priors,
            occ,
            counts,
        };
        proof {
            let sm = model_of(rv);
            assert(m@.vocab == sm.vocab);
            assert(m@.labels == sm.labels);
            assert(m@.total == sm.total);
            assert(m@.priors =~= sm.priors);
            assert(m@.occ =~= sm.occ);
            assert forall|d: int| 0 <= d < nlab implies #[trigger] m@.counts[d] =~= sm.counts[d] by {
                assert(m@.counts[d] == m.counts@[d]@.map_values(|x: u64| x as nat));
            }
            assert(m@.counts =~= sm.counts);
            assert(m@ == sm);

            // Well-formedness of the result.
            lemma_vocab_no_dup(rv);
            lemma_vocab_len(rv);
            lemma_labels_no_dup(rv);
            lemma_labels_of_contains(rv, 0);
            assert(labels_of(rv).len() >= 1);
            assert forall|d: int| 0 <= d < nlab implies
                1 <= #[trigger] m@.priors[d] <= m@.total by {
                lemma_label_rows_pos(rv, labels_of(rv)[d]);
                lemma_label_rows_le(rv, labels_of(rv)[d]);
            }
            assert forall|d: int| 0 <= d < nlab implies #[trigger] m@.occ[d] < count_limit() by {
                lemma_label_occurrences_le(rv, labels_of(rv)[d]);
            }
            assert forall|d: int, s: int|
                0 <= d < nlab && 0 <= s < m@.vocab.len() implies
                #[trigger] m@.counts[d][s] <= m@.occ[d] && m@.counts[d][s] <= m@.priors[d] by {
                lemma_symptom_rows_le(rv, labels_of(rv)[d], vocab_of(rv)[s]);
                lemma_label_occurrences_le(rv, labels_of(rv)[d]);
            }
            assert(m@.wf());
        }
        Result::Ok(m)
    }
}

/// A sequence of vocabulary indices, as mathematical integers.
pub open spec fn idx_views(s: Seq<usize>) -> Seq<int> {
    s.map_values(|x: usize| x as int)
}

impl NaiveBayesClassifier {
    /// Whether disease `d` strictly outscores disease `b` on the query
    /// (given by vocabulary indices), comparing the exact rational scores
    /// by cross-multiplication over arbitrary-precision integers.
    fn score_gt(&self, d: usize, b: usize, qidx: &Vec<usize>) -> (r: bool)
        requires
            self.wf(),
            d < self.labels@.len(),
            b < self.labels@.len(),
            forall|j: int| 0 <= j < qidx@.len() ==> #[trigger] qidx@[j] < self.vocab@.len(),
        ensures
            r == self@.score_exceeds(d as int, b as int, idx_views(qidx@)),
    {
        let ghost qi = idx_views(qidx@);
        let k = qidx.len();
        let mut lhs = BigNat::from_u64(self.priors[d]);
        let mut rhs = BigNat::from_u64(self.priors[b]);
        // The two smoothing denominators; each fits a word by wf.
        proof {
            assert(self@.occ[d as int] == self.occ@[d as int] as nat);
            assert(self@.occ[b as int] == self.occ@[b as int] as nat);
            assert(self@.vocab.len() == self.vocab@.len());
        }
        let dend = self.occ[d] + self.vocab.len() as u64;
        let denb = self.occ[b] + self.vocab.len() as u64;
        proof {
            vstd::arithmetic::power::lemma_pow0(denb as int);
            vstd::arithmetic::power::lemma_pow0(dend as int);
            assert(qi.take(0) =~= Seq::<int>::empty());
            assert(self@.factor_product(d as int, qi.take(0)) == 1);
            assert(dend as int == self@.smooth_denom(d as int));
            assert(denb as int == self@.smooth_denom(b as int));
        }
        let mut j: usize = 0;
        while j < k
            invariant
                j <= k,
                k == qidx@.len(),
                self.wf(),
                d < self.labels@.len(),
                b < self.labels@.len(),
                forall|t: int| 0 <= t < qidx@.len() ==> #[trigger] qidx@[t] < self.vocab@.len(),
                qi == idx_views(qidx@),
                dend as int == self@.smooth_denom(d as int),
                denb as int == self@.smooth_denom(b as int),
                lhs.wf(),
                rhs.wf(),
                lhs.value() == self@.score_numer(d as int, qi.take(j as int))
                    * pow(denb as int, j as nat),
                rhs.value() == self@.score_numer(b as int, qi.take(j as int))
                    * pow(dend as int, j as nat),
            decreases k - j,
        {
            let ix = qidx[j];
            proof {
                assert(self@.counts[d as int]
                    == self.counts@[d as int]@.map_values(|x: u64| x as nat));
                assert(self@.counts[b as int]
                    == self.counts@[b as int]@.map_values(|x: u64| x as nat));
                assert(self@.counts[d as int][ix as int]
                    == self.counts@[d as int]@[ix as int] as nat);
                assert(self@.counts[b as int][ix as int]
                    == self.counts@[b as int]@[ix as int] as nat);
            }
            let cd = self.counts[d][ix] + 1;
            let cb = self.counts[b][ix] + 1;
            let ghost lhs0 = lhs.value();
            let ghost rhs0 = rhs.value();
            lhs.mul_u64(cd);
            lhs.mul_u64(denb);
            rhs.mul_u64(cb);
            rhs.mul_u64(dend);
            proof {
                assert(qi.take(j + 1).drop_last() =~= qi.take(j as int));
                assert(qi.take(j + 1).last() == qi[j as int]);
                let nd0 = self@.score_numer(d as int, qi.take(j as int));
                let nb0 = self@.score_numer(b as int, qi.take(j as int));
                let nd1 = self@.score_numer(d as int, qi.take(j + 1));
                let nb1 = self@.score_numer(b as int, qi.take(j + 1));
                let fd0 = self@.factor_product(d as int, qi.take(j as int));
                let fb0 = self@.factor_product(b as int, qi.take(j as int));
                assert(self@.factor_product(d as int, qi.take(j + 1)) == fd0 * (cd as int));
                assert(self@.factor_product(b as int, qi.take(j + 1)) == fb0 * (cb as int));
                reveal(pow);
                assert(pow(denb as int, (j + 1) as nat) == denb as int * pow(denb as int, j as nat));
                assert(pow(dend as int, (j + 1) as nat) == dend as int * pow(dend as int, j as nat));
                assert(nd1 * pow(denb as int, (j + 1) as nat) == lhs0 * cd * denb)
                    by (nonlinear_arith)
                    requires
                        lhs0 == nd0 * pow(denb as int, j as nat),
                        nd0 == self@.priors[d as int] * fd0,
                        nd1 == self@.priors[d as int] * (fd0 * (cd as int)),
                        pow(denb as int, (j + 1) as nat)
                            == denb as int * pow(denb as int, j as nat),
                ;
                assert(nb1 * pow(dend as int, (j + 1) as nat) == rhs0 * cb * dend)
                    by (nonlinear_arith)
                    requires
                        rhs0 == nb0 * pow(dend as int, j as nat),
                        nb0 == self@.priors[b as int] * fb0,
                        nb1 == self@.priors[b as int] * (fb0 * (cb as int)),
                        pow(dend as int, (j + 1) as nat)
                            == dend as int * pow(dend as int, j as nat),
                ;
            }
            j += 1;
        }
        proof {
            assert(qi.take(k as int) =~= qi);
        }
        let r = lhs.gt(&rhs);
        proof {
            let nd = self@.score_numer(d as int, qi);
            let nb = self@.score_numer(b as int, qi);
            let pb = pow(denb as int, qi.len());
            let pd = pow(dend as int, qi.len());
            let t = self@.total as int;
            assert((nd * (t * pb) > nb * (t * pd)) == (nd * pb > nb * pd))
                by (nonlinear_arith)
                requires
                    t >= 1,
            ;
        }
        r
    }

    /// Predict the disease for one raw query row: cell 0 is skipped (it
    /// is the label column position of the tabular format), the remaining
    /// cells are normalized exactly as in training. Every query symptom
    /// must be in the training vocabulary; an unknown symptom is an
    /// error, never silently skipped.
    pub fn predict_row(&self, cells: &Vec<String>) -> (r: Result<String, PredictError>)
        requires
            self.wf(),
        ensures
            match r {
                Result::Ok(lab) => {
                    &&& self@.known_query(norm_tokens(tail_of(str_views(cells@))))
                    &&& lab@ == self@.prediction(str_views(cells@))
                },
                Result::Err(e) => {
                    &&& e == PredictError::UnknownSymptom
                    &&& !self@.known_query(norm_tokens(tail_of(str_views(cells@))))
                },
            },
    {
        let ghost q = norm_tokens(tail_of(str_views(cells@)));
        let toks = normalize_row(cells);
        let mut qidx: Vec<usize> = Vec::new();
        let mut j: usize = 0;
        while j < toks.len()
            invariant
                j <= toks@.len(),
                self.wf(),
                q == norm_tokens(tail_of(str_views(cells@))),
                str_views(toks@) == q,
                qidx@.len() == j,
                forall|t: int|
                    0 <= t < j
                        ==> #[trigger] qidx@[t] < self.vocab@.len()
                            && str_views(self.vocab@)[qidx@[t] as int] == q[t]
                            && idx_views(qidx@)[t] == self@.query_indices(q)[t],
            decreases toks@.len() - j,
        {
            proof {
                assert(str_views(toks@)[j as int] == toks@[j as int]@);
            }
            match token_index(&self.vocab, &toks[j]) {
                Option::Some(ix) => {
                    proof {
                        let vv = str_views(self.vocab@);
                        assert(vv[ix as int] == q[j as int]);
                        assert(vv.contains(q[j as int]));
                        let iof = vv.index_of(q[j as int]);
                        assert(0 <= iof < vv.len() && vv[iof] == q[j as int]);
                        assert(iof == ix as int);
                    }
                    qidx.push(ix);
                },
                Option::None => {
                    proof {
                        assert(!str_views(self.vocab@).contains(q[j as int]));
                        assert(0 <= j < q.len());
                        assert(!self@.vocab.contains(q[j as int]));
                        assert(!self@.known_query(q));
                    }
                    return Result::Err(PredictError::UnknownSymptom);
                },
            }
            j += 1;
        }
        proof {
            assert forall|t: int| 0 <= t < q.len() implies
                self@.vocab.contains(#[trigger] q[t]) by {
                assert(str_views(self.vocab@)[qidx@[t] as int] == q[t]);
            }
            assert(idx_views(qidx@) =~= self@.query_indices(q));
        }
        let nlab = self.labels.len();
        let mut best: usize = 0;
        let mut d: usize = 1;
        while d < nlab
            invariant
                1 <= d <= nlab,
                nlab == self.labels@.len(),
                self.wf(),
                best < nlab,
                q == norm_tokens(tail_of(str_views(cells@))),
                self@.known_query(q),
                idx_views(qidx@) == self@.query_indices(q),
                forall|t: int| 0 <= t < qidx@.len() ==> #[trigger] qidx@[t] < self.vocab@.len(),
                best == self@.best_label(idx_views(qidx@), d as int),
            decreases nlab - d,
        {
            if self.score_gt(d, best, &qidx) {
                best = d;
            }
            d += 1;
        }
        let lab = self.labels[best].clone();
        proof {
            assert(lab@ == str_views(self.labels@)[best as int]);
        }
        Result::Ok(lab)
    }

    /// Predict every query row, pairing each predicted label with the
    /// 1-based index of its row, in input order. The whole batch fails on
    /// the first row holding a symptom unknown to the training
    /// vocabulary (batch-validated policy: no partial output).
    pub fn predict(&self, rows: &Vec<Vec<String>>) -> (r: Result<
        Vec<(u64, String)>,
        PredictError,
    >)
        requires
            self.wf(),
        ensures
            match r {
                Result::Ok(out) => {
                    &&& out@.len() == rows@.len()
                    &&& forall|i: int| 0 <= i < out@.len() ==> (#[trigger] out@[i]).0 == i + 1
                    &&& forall|i: int|
                        0 <= i < out@.len()
                            ==> (#[trigger] out@[i]).1@
                                == self@.prediction(rows_views(rows@)[i])
                    &&& forall|i: int|
                        0 <= i < rows@.len()
                            ==> self@.known_query(
                                norm_tokens(tail_of(#[trigger] rows_views(rows@)[i])),
                            )
                },
                Result::Err(e) => {
                    &&& e == PredictError::UnknownSymptom
                    &&& exists|i: int|
                        0 <= i < rows@.len()
                            && !self@.known_query(
                                norm_tokens(tail_of(#[trigger] rows_views(rows@)[i])),
                            )
                },
            },
    {
        let ghost rv = rows_views(rows@);
        let mut out: Vec<(u64, String)> = Vec::new();
        let mut i: usize = 0;
        while i < rows.len()
            invariant
                i <= rows@.len(),
                self.wf(),
                rv == rows_views(rows@),
                out@.len() == i,
                forall|t: int| 0 <= t < i ==> (#[trigger] out@[t]).0 == t + 1,
                forall|t: int|
                    0 <= t < i ==> (#[trigger] out@[t]).1@ == self@.prediction(rv[t]),
                forall|t: int|
                    0 <= t < i
                        ==> self@.known_query(norm_tokens(tail_of(#[trigger] rv[t]))),
            decreases rows@.len() - i,
        {
            proof {
                assert(rv[i as int] == str_views(rows@[i as int]@));
            }
            match self.predict_row(&rows[i]) {
                Result::Ok(lab) => {
                    proof {
                        assert(lab@ == self@.prediction(rv[i as int]));
                    }
                    out.push(((i as u64) + 1, lab));
                },
                Result::Err(e) => {
                    proof {
                        assert(!self@.known_query(norm_tokens(tail_of(rv[i as int]))));
                    }
                    return Result::Err(e);
                },
            }
            i += 1;
        }
        Result::Ok(out)
    }
}

} // verus!
