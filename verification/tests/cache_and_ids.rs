use clark_autoresearch::cache::{cached_evaluate, candidate_hash, EvaluationBatch, EvaluationCache};
use clark_autoresearch::ids::stable_id;
use clark_autoresearch::proposer::Candidate;
use clark_autoresearch::textmap::TextMap;

fn candidate(pairs: &[(&str, &str)]) -> Candidate {
    TextMap::from_pairs(pairs.iter().map(|(k, v)| (k.to_string(), v.to_string())).collect())
}

fn evaluate(scores: i64) -> impl Fn(&Vec<usize>) -> Result<EvaluationBatch<String>, String> {
    move |misses: &Vec<usize>| {
        Ok(EvaluationBatch {
            scores: misses.iter().map(|_| scores).collect(),
            outputs: misses.iter().map(|i| format!("out{i}")).collect(),
            trajectories: None,
            objective_scores: None,
            num_metric_calls: misses.len() as u32,
        })
    }
}

#[test]
fn repeated_evaluation_is_served_from_cache() {
    let mut cache: EvaluationCache<String> = EvaluationCache::new();
    let candidate = candidate(&[("score", "0.5")]);
    let ids = vec!["e1".to_string(), "e2".to_string()];

    let first = cached_evaluate(&mut cache, &ids, &candidate, &evaluate(7)).unwrap();
    assert_eq!(first.num_metric_calls, 2);
    assert_eq!(cache.misses(), 2);

    let second = cached_evaluate(&mut cache, &ids, &candidate, &evaluate(9)).unwrap();
    assert_eq!(second.num_metric_calls, 0, "second call should be all cache hits");
    assert_eq!(cache.hits(), 2);
    assert_eq!(second.scores, first.scores);
    assert_eq!(second.outputs, vec!["out0".to_string(), "out1".to_string()]);
    assert_eq!(cache.len(), 2);
}

#[test]
fn partly_cached_batch_evaluates_only_the_misses() {
    let mut cache: EvaluationCache<String> = EvaluationCache::new();
    let c = candidate(&[("p", "x")]);
    cached_evaluate(&mut cache, &vec!["a".to_string()], &c, &evaluate(1)).unwrap();
    let asked = std::cell::RefCell::new(Vec::new());
    let ids = vec!["b".to_string(), "a".to_string(), "c".to_string()];
    let batch = cached_evaluate(&mut cache, &ids, &c, &|m: &Vec<usize>| {
        asked.borrow_mut().push(m.clone());
        evaluate(5)(m)
    })
    .unwrap();
    assert_eq!(asked.into_inner(), vec![vec![0usize, 2]]);
    assert_eq!(batch.scores, vec![5, 1, 5]);
    assert_eq!(batch.num_metric_calls, 2);
    assert_eq!(cache.hits(), 1);
    assert_eq!(cache.misses(), 3);
}

#[test]
fn evaluator_error_is_passed_on_and_nothing_is_stored() {
    let mut cache: EvaluationCache<String> = EvaluationCache::new();
    let c = candidate(&[("p", "x")]);
    let r = cached_evaluate(&mut cache, &vec!["a".to_string()], &c, &|_: &Vec<usize>| {
        Err::<EvaluationBatch<String>, String>("boom".to_string())
    });
    assert_eq!(r.unwrap_err(), "boom");
    assert!(cache.is_empty());
}

#[test]
fn candidate_hash_is_order_independent_and_stable() {
    let a = candidate(&[("x", "1"), ("y", "2")]);
    let b = candidate(&[("y", "2"), ("x", "1")]);
    assert_eq!(candidate_hash(&a), candidate_hash(&b));
    assert!(!candidate_hash(&a).is_empty());
    assert_eq!(candidate_hash(&a), "c3cf223ae413d37045f7688167a421af052c0864");
}

#[test]
fn distinct_candidates_get_distinct_hashes() {
    let a = candidate(&[("x", "1")]);
    let b = candidate(&[("x", "2")]);
    assert_ne!(candidate_hash(&a), candidate_hash(&b));
}

#[test]
fn stable_id_is_repeatable() {
    let a = stable_id("exp", &["root", "try smaller model"]);
    let b = stable_id("exp", &["root", "try smaller model"]);
    assert_eq!(a, b);
    assert!(a.starts_with("exp:"));
    assert_eq!(a.len(), "exp:".len() + 16);
    assert_ne!(a, stable_id("exp", &["root", "try bigger model"]));
}

#[test]
fn stable_id_is_sha1_of_the_parts() {
    // The id keeps the first 16 hex digits of the SHA-1 of "p\0a\0".
    let id = stable_id("p", &["a"]);
    assert_eq!(id, "p:76942bf481eeedad");
}

#[test]
fn fresh_trajectories_and_objectives_land_at_the_missed_positions() {
    let mut cache: EvaluationCache<String> = EvaluationCache::new();
    let c = candidate(&[("p", "x")]);
    let with_objectives = |misses: &Vec<usize>| -> Result<EvaluationBatch<String>, String> {
        Ok(EvaluationBatch {
            scores: misses.iter().map(|_| 4).collect(),
            outputs: misses.iter().map(|i| format!("out{i}")).collect(),
            trajectories: Some(misses.iter().map(|i| format!("trace{i}")).collect()),
            objective_scores: Some(
                misses
                    .iter()
                    .map(|i| TextMap::from_pairs(vec![("cost".to_string(), *i as i64)]))
                    .collect(),
            ),
            num_metric_calls: misses.len() as u32,
        })
    };
    cached_evaluate(&mut cache, &vec!["b".to_string()], &c, &evaluate(1)).unwrap();
    let ids = vec!["a".to_string(), "b".to_string(), "c".to_string()];
    let batch = cached_evaluate(&mut cache, &ids, &c, &with_objectives).unwrap();
    let traces = batch.trajectories.unwrap();
    assert_eq!(traces, vec!["trace0".to_string(), String::new(), "trace2".to_string()]);
    let objectives = batch.objective_scores.unwrap();
    assert_eq!(objectives.len(), 3);
    assert_eq!(objectives[0].get("cost"), Some(&0));
    assert_eq!(objectives[1].len(), 0);
    assert_eq!(objectives[2].get("cost"), Some(&2));
    let again = cached_evaluate(&mut cache, &ids, &c, &with_objectives).unwrap();
    assert!(again.trajectories.is_none());
    assert_eq!(again.objective_scores.unwrap()[2].get("cost"), Some(&2));
}
