//! Global properties of fitted models, proved once and for all: priors
//! partition the training set, smoothed likelihoods stay in (0, 1], and
//! prediction is a function of the training data alone.
use vstd::prelude::*;
use crate::model::{
    SpecModel, model_of, labels_of, label_rows, row_label, lemma_labels_of_contains,
    lemma_contains_push, lemma_symptom_rows_le,
};

verus! {

/// The sum of a sequence of naturals.
pub open spec fn sum_nats(s: Seq<nat>) -> nat
    decreases s.len(),
{
    if s.len() == 0 {
        0
    } else {
        sum_nats(s.drop_last()) + s.last()
    }
}

/// Sum of `label_rows` over a list of labels.
pub open spec fn sum_label_rows(rows: Seq<Seq<Seq<char>>>, labs: Seq<Seq<char>>) -> nat
    decreases labs.len(),
{
    if labs.len() == 0 {
        0
    } else {
        sum_label_rows(rows, labs.drop_last()) + label_rows(rows, labs.last())
    }
}

/// Appending one row adds exactly 1 to the summand of its own label and
/// leaves every other summand unchanged.
proof fn lemma_sum_snoc(rows: Seq<Seq<Seq<char>>>, row: Seq<Seq<char>>, labs: Seq<Seq<char>>)
    requires
        labs.no_duplicates(),
    ensures
        labs.contains(row_label(row))
            ==> sum_label_rows(rows.push(row), labs) == sum_label_rows(rows, labs) + 1,
        !labs.contains(row_label(row))
            ==> sum_label_rows(rows.push(row), labs) == sum_label_rows(rows, labs),
    decreases labs.len(),
{
    if labs.len() > 0 {
        let l = labs.last();
        let dl = labs.drop_last();
        assert(dl.no_duplicates());
        lemma_sum_snoc(rows, row, dl);
        assert(rows.push(row).drop_last() =~= rows);
        assert(rows.push(row).last() == row);
        if l == row_label(row) {
            if dl.contains(row_label(row)) {
                let i = choose|i: int| 0 <= i < dl.len() && dl[i] == row_label(row);
                assert(labs[i] == labs[labs.len() - 1]);
                assert(false);
            }
            assert(labs.contains(row_label(row)));
        } else {
            if dl.contains(row_label(row)) {
                let i = choose|i: int| 0 <= i < dl.len() && dl[i] == row_label(row);
                assert(labs[i] == row_label(row));
                assert(labs.contains(row_label(row)));
            } else {
                if labs.contains(row_label(row)) {
                    let i = choose|i: int| 0 <= i < labs.len() && labs[i] == row_label(row);
                    assert(i < labs.len() - 1);
                    assert(dl[i] == row_label(row));
                    assert(false);
                }
            }
        }
    }
}

/// A label outside the label list labels no row.
proof fn lemma_label_rows_zero(rows: Seq<Seq<Seq<char>>>, lab: Seq<char>)
    requires
        !labels_of(rows).contains(lab),
    ensures
        label_rows(rows, lab) == 0,
    decreases rows.len(),
{
    if rows.len() > 0 {
        lemma_labels_of_contains(rows, rows.len() - 1);
        assert(rows[rows.len() - 1] == rows.last());
        assert(row_label(rows.last()) != lab);
        if labels_of(rows.drop_last()).contains(lab) {
            if !labels_of(rows.drop_last()).contains(row_label(rows.last())) {
                lemma_contains_push(
                    labels_of(rows.drop_last()), row_label(rows.last()), lab);
            }
            assert(labels_of(rows).contains(lab));
            assert(false);
        }
        lemma_label_rows_zero(rows.drop_last(), lab);
    }
}

/// Every training row is counted exactly once over the distinct labels.
proof fn lemma_priors_partition(rows: Seq<Seq<Seq<char>>>)
    ensures
        sum_label_rows(rows, labels_of(rows)) == rows.len(),
    decreases rows.len(),
{
    if rows.len() > 0 {
        let r0 = rows.drop_last();
        let row = rows.last();
        let lab = row_label(row);
        let l0 = labels_of(r0);
        lemma_priors_partition(r0);
        crate::model::lemma_labels_no_dup(r0);
        assert(r0.push(row) =~= rows);
        if l0.contains(lab) {
            assert(labels_of(rows) == l0);
            lemma_sum_snoc(r0, row, l0);
        } else {
            assert(labels_of(rows) == l0.push(lab));
            lemma_sum_snoc(r0, row, l0);
            assert(labels_of(rows).drop_last() =~= l0);
            assert(sum_label_rows(rows, labels_of(rows))
                == sum_label_rows(rows, l0) + label_rows(rows, lab));
            lemma_label_rows_zero(r0, lab);
        }
    }
}

/// Summing the prior numerators of the model is summing `label_rows`
/// over its labels.
proof fn lemma_sum_priors_shape(rows: Seq<Seq<Seq<char>>>, labs: Seq<Seq<char>>)
    ensures
        sum_nats(Seq::new(labs.len(), |d: int| label_rows(rows, labs[d])))
            == sum_label_rows(rows, labs),
    decreases labs.len(),
{
    let m = Seq::new(labs.len(), |d: int| label_rows(rows, labs[d]));
    if labs.len() > 0 {
        lemma_sum_priors_shape(rows, labs.drop_last());
        assert(m.drop_last()
            =~= Seq::new(labs.drop_last().len(), |d: int| label_rows(rows, labs.drop_last()[d])));
        assert(m.last() == label_rows(rows, labs.last()));
    } else {
        assert(m =~= Seq::<nat>::empty());
    }
}

/// The priors of a fitted model sum to one: their numerators
/// `label_rows(rows, d)` add up to exactly the number of training rows,
/// so the rationals `priors[d] / total` sum to exactly 1 — not merely
/// within a floating-point tolerance.
pub proof fn lemma_priors_sum_to_one(m: SpecModel, rows: Seq<Seq<Seq<char>>>)
    requires
        m == model_of(rows),
    ensures
        sum_nats(m.priors) == m.total,
{
    lemma_priors_partition(rows);
    lemma_sum_priors_shape(rows, labels_of(rows));
}

/// Every smoothed likelihood lies in (0, 1]: its numerator
/// `counts[d][s] + 1` is at least 1 and at most the common denominator
/// `occ[d] + |vocab|`.
pub proof fn lemma_likelihood_bounds(m: SpecModel, rows: Seq<Seq<Seq<char>>>, d: int, s: int)
    requires
        m == model_of(rows),
        0 <= d < m.labels.len(),
        0 <= s < m.vocab.len(),
    ensures
        1 <= m.counts[d][s] + 1,
        m.counts[d][s] + 1 <= m.smooth_denom(d),
{
    lemma_symptom_rows_le(rows, m.labels[d], m.vocab[s]);
    crate::model::lemma_label_occurrences_le(rows, m.labels[d]);
}

/// Laplace smoothing: a symptom that never occurs with a disease still
/// has a strictly positive likelihood — its numerator is exactly 1 over
/// a positive denominator, never zero and never undefined.
pub proof fn lemma_laplace_positive(m: SpecModel, rows: Seq<Seq<Seq<char>>>, d: int, s: int)
    requires
        m == model_of(rows),
        0 <= d < m.labels.len(),
        0 <= s < m.vocab.len(),
        m.counts[d][s] == 0,
    ensures
        m.counts[d][s] + 1 == 1,
        m.smooth_denom(d) >= 1,
{
    lemma_likelihood_bounds(m, rows, d, s);
}

/// The winning index is always one of the scored diseases, so the
/// predicted label is always a label seen in training.
pub proof fn lemma_best_label_in_range(m: SpecModel, q: Seq<int>, k: int)
    requires
        k >= 1,
    ensures
        0 <= m.best_label(q, k) < k,
    decreases k,
{
    if k > 1 {
        lemma_best_label_in_range(m, q, k - 1);
    }
}

/// Determinism: two classifiers fitted from the same training rows
/// assign the same label to the same query row. (Stated for identical
/// row sequences: reordering rows across disease groups can change the
/// first-seen order of labels, and with it which of two exactly tied
/// diseases is kept, a tie-break the design leaves to first-seen order.)
pub proof fn lemma_prediction_deterministic(
    m1: SpecModel,
    m2: SpecModel,
    rows: Seq<Seq<Seq<char>>>,
    cells: Seq<Seq<char>>,
)
    requires
        m1 == model_of(rows),
        m2 == model_of(rows),
    ensures
        m1.prediction(cells) == m2.prediction(cells),
{
}

} // verus!
