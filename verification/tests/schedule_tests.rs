use xeno_canto_scraper::schedule::AttemptOutcome;
use xeno_canto_scraper::schedule::FetchState;
use xeno_canto_scraper::schedule::RateGate;
use xeno_canto_scraper::schedule::conversion_candidates;
use xeno_canto_scraper::schedule::dispatch;
use xeno_canto_scraper::schedule::retry_step;

#[test]
fn two_failures_then_success_totals_three_seconds_of_backoff() {
    let mut state = dispatch(FetchState::Pending);
    assert!(matches!(state, FetchState::Attempting { attempt: 1 }));
    let mut total_delay: u64 = 0;
    let (s1, d1) = retry_step(state, AttemptOutcome::Failure);
    total_delay += d1.unwrap();
    state = s1;
    let (s2, d2) = retry_step(state, AttemptOutcome::Failure);
    total_delay += d2.unwrap();
    state = s2;
    assert!(matches!(state, FetchState::Attempting { attempt: 3 }));
    let (s3, d3) = retry_step(state, AttemptOutcome::Success);
    assert!(matches!(s3, FetchState::Succeeded));
    assert!(d3.is_none());
    assert_eq!(total_delay, 3000);
}

#[test]
fn four_failures_abandon_the_entry() {
    let mut state = dispatch(FetchState::Pending);
    let mut delays: Vec<u64> = Vec::new();
    for _ in 0..4 {
        let (s, d) = retry_step(state, AttemptOutcome::Failure);
        state = s;
        if let Some(ms) = d {
            delays.push(ms);
        }
    }
    assert!(matches!(state, FetchState::Abandoned));
    assert_eq!(delays, vec![1000, 2000, 4000]);
    let (after, d) = retry_step(state, AttemptOutcome::Success);
    assert!(matches!(after, FetchState::Abandoned));
    assert!(d.is_none());
}

#[test]
fn rate_gate_spaces_requests_by_the_interval() {
    let mut gate = RateGate::new(500, 10_000);
    let w1 = gate.reserve(10_000);
    assert_eq!(w1, 0);
    let w2 = gate.reserve(10_100);
    assert_eq!(w2, 400);
    assert_eq!(gate.last_issue_ms, 10_500);
    let w3 = gate.reserve(11_200);
    assert_eq!(w3, 0);
    assert_eq!(gate.last_issue_ms, 11_200);
}

#[test]
fn conversion_candidates_lack_a_canonical_counterpart() {
    let files = vec![
        "a.mp3".to_string(),
        "b.mp3".to_string(),
        "b.wav".to_string(),
        "notes.txt".to_string(),
        "c.wav".to_string(),
    ];
    let todo = conversion_candidates(&files);
    assert_eq!(todo, vec!["a.mp3".to_string()]);
}

#[test]
fn conversion_candidates_empty_when_all_converted() {
    let files = vec!["a.mp3".to_string(), "a.wav".to_string()];
    assert_eq!(conversion_candidates(&files).len(), 0);
}
