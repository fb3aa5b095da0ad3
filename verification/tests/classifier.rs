use naive_bayes::{NaiveBayesClassifier, PredictError, TrainError};

fn row(cells: &[&str]) -> Vec<String> {
    cells.iter().map(|c| c.to_string()).collect()
}

fn fit(rows: &[Vec<String>]) -> NaiveBayesClassifier {
    NaiveBayesClassifier::new(&rows.to_vec()).expect("training failed")
}

#[test]
fn single_disease_scenario() {
    // One disease: its prior is 1 and any known symptom maps to it.
    let rows = vec![row(&["Flu", "Cough", "Fever"])];
    let m = fit(&rows);
    assert_eq!(m.total, 1);
    assert_eq!(m.labels, vec!["Flu".to_string()]);
    assert_eq!(m.priors, vec![1]); // pi(Flu) = 1/1 = 1
    let got = m.predict_row(&row(&["x", "Cough"])).expect("prediction failed");
    assert_eq!(got, "Flu");
}

#[test]
fn discriminating_evidence_scenario() {
    // Fever never co-occurs with Cold, so the query [Fever] yields Flu.
    let rows = vec![
        row(&["Flu", "Cough", "Fever"]),
        row(&["Cold", "Cough"]),
        row(&["Cold", "Cough"]),
    ];
    let m = fit(&rows);
    let got = m.predict_row(&row(&["x", "Fever"])).expect("prediction failed");
    assert_eq!(got, "Flu");
}

#[test]
fn exact_counts_of_fitted_model() {
    // The same training set, checked against the formulas by hand:
    // vocabulary {Cough, Fever}; Flu: 1 row, 2 occurrences; Cold: 2 rows,
    // 2 occurrences; counts: Flu {Cough: 1, Fever: 1}, Cold {Cough: 2, Fever: 0}.
    let rows = vec![
        row(&["Flu", "Cough", "Fever"]),
        row(&["Cold", "Cough"]),
        row(&["Cold", "Cough"]),
    ];
    let m = fit(&rows);
    assert_eq!(m.total, 3);
    assert_eq!(m.labels, vec!["Flu".to_string(), "Cold".to_string()]);
    assert_eq!(m.vocab, vec!["Cough".to_string(), "Fever".to_string()]);
    assert_eq!(m.priors, vec![1, 2]);
    assert_eq!(m.occ, vec![2, 2]);
    assert_eq!(m.counts, vec![vec![1, 1], vec![2, 0]]);
    // beta(Flu, Fever) = (1+1)/(2+2) = 1/2; beta(Cold, Fever) = (0+1)/(2+2) = 1/4.
}

#[test]
fn empty_query_falls_back_to_priors() {
    // A query without symptoms scores each disease by its prior alone.
    let rows = vec![
        row(&["Flu", "Cough"]),
        row(&["Cold", "Fever"]),
        row(&["Cold", "Chills"]),
    ];
    let m = fit(&rows);
    let got = m.predict_row(&row(&["x"])).expect("prediction failed");
    assert_eq!(got, "Cold"); // prior 2/3 beats 1/3
}

#[test]
fn unknown_symptom_is_rejected() {
    let rows = vec![row(&["Flu", "Cough"])];
    let m = fit(&rows);
    let got = m.predict_row(&row(&["x", "Hiccups"]));
    assert_eq!(got, Err(PredictError::UnknownSymptom));
}

#[test]
fn unknown_symptom_aborts_whole_batch() {
    // Batch-validated policy: one bad row fails the whole run, no partial output.
    let rows = vec![row(&["Flu", "Cough"])];
    let m = fit(&rows);
    let queries = vec![row(&["x", "Cough"]), row(&["x", "Hiccups"])];
    assert_eq!(m.predict(&queries), Err(PredictError::UnknownSymptom));
}

#[test]
fn batch_ids_are_one_based_and_in_input_order() {
    let rows = vec![row(&["Flu", "Cough"]), row(&["Cold", "Fever"])];
    let m = fit(&rows);
    let queries = vec![
        row(&["x", "Cough"]),
        row(&["x", "Fever"]),
        row(&["x", "Cough"]),
    ];
    let out = m.predict(&queries).expect("prediction failed");
    assert_eq!(out.len(), 3);
    assert_eq!(out[0], (1, "Flu".to_string()));
    assert_eq!(out[1], (2, "Cold".to_string()));
    assert_eq!(out[2], (3, "Flu".to_string()));
}

#[test]
fn empty_training_set_is_an_error() {
    let rows: Vec<Vec<String>> = Vec::new();
    assert_eq!(
        NaiveBayesClassifier::new(&rows).err(),
        Some(TrainError::EmptyTrainingSet)
    );
}

#[test]
fn row_without_label_cell_is_malformed() {
    let rows = vec![row(&["Flu", "Cough"]), Vec::new()];
    assert_eq!(
        NaiveBayesClassifier::new(&rows).err(),
        Some(TrainError::MalformedRow)
    );
}

#[test]
fn tokens_are_trimmed_before_matching() {
    // Training writes the symptom with stray spaces; the query without.
    // If trimming did nothing, the query token would be unknown.
    let rows = vec![row(&["Flu", "  Cough "])];
    let m = fit(&rows);
    assert_eq!(m.vocab, vec!["Cough".to_string()]);
    let got = m.predict_row(&row(&["x", "Cough"])).expect("prediction failed");
    assert_eq!(got, "Flu");
}

#[test]
fn whitespace_only_cells_are_dropped() {
    let rows = vec![row(&["Flu", "   ", "Cough", ""])];
    let m = fit(&rows);
    assert_eq!(m.vocab, vec!["Cough".to_string()]);
    assert_eq!(m.occ, vec![1]);
}

#[test]
fn repeated_tokens_in_a_row_count_once() {
    let rows = vec![row(&["Flu", "Cough", "Cough", " Cough"])];
    let m = fit(&rows);
    assert_eq!(m.vocab, vec!["Cough".to_string()]);
    assert_eq!(m.occ, vec![1]);
    assert_eq!(m.counts, vec![vec![1]]);
}

#[test]
fn priors_sum_to_total() {
    // Exact form of "priors sum to 1": numerators add up to the denominator.
    let rows = vec![
        row(&["Flu", "Cough"]),
        row(&["Cold", "Fever"]),
        row(&["Cold", "Chills"]),
        row(&["Measles", "Rash", "Fever"]),
    ];
    let m = fit(&rows);
    let sum: u64 = m.priors.iter().sum();
    assert_eq!(sum, m.total);
}

#[test]
fn likelihoods_lie_in_unit_interval() {
    // 0 < beta(d, s) <= 1 for every disease and vocabulary symptom.
    let rows = vec![
        row(&["Flu", "Cough", "Fever"]),
        row(&["Cold", "Cough"]),
        row(&["Measles", "Rash"]),
    ];
    let m = fit(&rows);
    let v = m.vocab.len() as u64;
    for d in 0..m.labels.len() {
        for s in 0..m.vocab.len() {
            let numer = m.counts[d][s] + 1;
            let denom = m.occ[d] + v;
            assert!(numer >= 1);
            assert!(numer <= denom);
        }
    }
}

#[test]
fn unseen_pair_keeps_positive_likelihood() {
    // Fever never occurs with Cold, yet beta(Cold, Fever) = 1/4 > 0.
    let rows = vec![
        row(&["Flu", "Cough", "Fever"]),
        row(&["Cold", "Cough"]),
        row(&["Cold", "Cough"]),
    ];
    let m = fit(&rows);
    let fever = m.vocab.iter().position(|t| t == "Fever").unwrap();
    let cold = m.labels.iter().position(|l| l == "Cold").unwrap();
    assert_eq!(m.counts[cold][fever], 0);
    assert!(m.counts[cold][fever] + 1 >= 1);
    assert!(m.occ[cold] + m.vocab.len() as u64 >= 1);
}

#[test]
fn exact_ties_keep_the_earlier_seen_disease() {
    let rows = vec![row(&["Alpha", "Sneeze"]), row(&["Beta", "Sneeze"])];
    let m = fit(&rows);
    let got = m.predict_row(&row(&["x", "Sneeze"])).expect("prediction failed");
    assert_eq!(got, "Alpha");
}

#[test]
fn prediction_is_deterministic_across_runs() {
    let rows = vec![
        row(&["Flu", "Cough", "Fever"]),
        row(&["Cold", "Cough"]),
        row(&["Cold", "Sneeze"]),
    ];
    let query = row(&["x", "Cough", "Sneeze"]);
    let first = fit(&rows).predict_row(&query).expect("prediction failed");
    for _ in 0..5 {
        let again = fit(&rows).predict_row(&query).expect("prediction failed");
        assert_eq!(first, again);
    }
}
