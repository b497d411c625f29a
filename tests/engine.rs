use score_engine::prompt::build_eval_prompt;
use score_engine::run::{
    AttemptStep, IssueKind, Run, RunConfig, RunError, ScoreRecord, SubjectInput, VariantInput,
};
use score_engine::tokens::estimate_tokens;

fn variant(key: &str, instruction: &str, answer: &str) -> VariantInput {
    VariantInput { key: key.to_string(), instruction: instruction.to_string(), answer: answer.to_string() }
}

fn subject(id: u64, keys: &[&str]) -> SubjectInput {
    SubjectInput {
        id,
        has_answers: true,
        variants: keys.iter().map(|k| variant(k, "Explain tides.", "The moon pulls the sea.")).collect(),
    }
}

fn config(quota: u64) -> RunConfig {
    RunConfig {
        budget: 100_000,
        max_per_chunk: 0,
        max_attempts: 5,
        base_delay_ms: 500,
        delay_ms: 200,
        quota,
    }
}

fn scores(seed: u8) -> Vec<u8> {
    (0..10).map(|i| (seed + i) % 11).collect()
}

/// A scoring client that answers every requested key, and fails the test if
/// a key it has already scored is asked for again.
struct FakeClient {
    seen: Vec<(u64, String)>,
}

impl FakeClient {
    fn answer(&mut self, subject_id: u64, keys: &[String]) -> Vec<(String, Vec<u8>)> {
        keys.iter()
            .map(|k| {
                assert!(!self.seen.contains(&(subject_id, k.clone())), "key {k} sent twice");
                self.seen.push((subject_id, k.clone()));
                (k.clone(), scores(subject_id as u8))
            })
            .collect()
    }
}

fn drive(run: &mut Run, client: &mut FakeClient) {
    while let Some(req) = run.next_chunk() {
        let resp = client.answer(req.subject_id, &req.keys);
        match run.record_attempt(Some(resp), 0) {
            AttemptStep::Done { .. } => {}
            _ => panic!("a successful call must end the chunk"),
        }
    }
}

fn views(records: &[ScoreRecord]) -> Vec<(u64, String, Vec<u8>)> {
    records.iter().map(|r| (r.subject_id, r.key.clone(), r.scores.clone())).collect()
}

#[test]
fn retried_chunk_succeeds_on_third_attempt() {
    let subjects = vec![subject(1, &["instruct_polite"])];
    let mut run = Run::new(config(100), &subjects, &vec![]).ok().unwrap();
    let req = run.next_chunk().unwrap();
    assert_eq!(req.attempt_budget, 5);
    assert_eq!(req.keys, vec!["instruct_polite".to_string()]);
    assert!(matches!(run.record_attempt(None, 0), AttemptStep::RetryAfter { delay_ms: 1000 }));
    assert!(matches!(run.record_attempt(None, 0), AttemptStep::RetryAfter { delay_ms: 2000 }));
    let resp = vec![("instruct_polite".to_string(), scores(3))];
    match run.record_attempt(Some(resp), 0) {
        AttemptStep::Done { attempts, pause_ms } => {
            assert_eq!(attempts, 3);
            assert_eq!(pause_ms, 0);
        }
        _ => panic!("expected success"),
    }
    assert_eq!(run.calls_made(), 3);
    assert!(run.issues().is_empty());
    assert_eq!(views(&run.checkpoint()), vec![(1, "instruct_polite".to_string(), scores(3))]);
    assert!(run.next_chunk().is_none());
    assert!(!run.stopped_early());
}

#[test]
fn first_try_success_gets_paced_delay() {
    let subjects = vec![subject(1, &["a"])];
    let mut run = Run::new(config(100), &subjects, &vec![]).ok().unwrap();
    let _ = run.next_chunk().unwrap();
    match run.record_attempt(Some(vec![("a".to_string(), scores(0))]), 0) {
        AttemptStep::Done { attempts: 1, pause_ms: 200 } => {}
        _ => panic!("expected a paced first-try success"),
    }
}

#[test]
fn quota_stops_before_next_subject() {
    let mut subjects = Vec::new();
    for id in 1..=4 {
        subjects.push(subject(id, &["a", "b"]));
    }
    for id in 5..=8 {
        subjects.push(subject(id, &["a"]));
    }
    let mut cfg = config(10);
    cfg.max_per_chunk = 1;
    let mut run = Run::new(cfg, &subjects, &vec![]).ok().unwrap();
    let mut client = FakeClient { seen: Vec::new() };
    drive(&mut run, &mut client);
    assert_eq!(run.calls_made(), 10);
    assert!(run.stopped_early());
    let done = run.checkpoint();
    assert_eq!(done.len(), 10);
    assert!(done.iter().all(|r| r.subject_id <= 6));
    let rest = run.unprocessed();
    assert_eq!(rest, vec![(7, "a".to_string()), (8, "a".to_string())]);
    assert!(run.issues().is_empty());
}

#[test]
fn chunk_attempts_never_pass_the_quota() {
    let subjects = vec![subject(1, &["a"])];
    let mut run = Run::new(config(2), &subjects, &vec![]).ok().unwrap();
    let req = run.next_chunk().unwrap();
    assert_eq!(req.attempt_budget, 2);
    assert!(matches!(run.record_attempt(None, 0), AttemptStep::RetryAfter { .. }));
    assert!(matches!(run.record_attempt(None, 0), AttemptStep::GaveUp { attempts: 2 }));
    assert_eq!(run.calls_made(), 2);
    let issues = run.issues();
    assert_eq!(issues.len(), 1);
    assert_eq!(issues[0].kind, IssueKind::CallsFailed);
    assert!(run.next_chunk().is_none());
}

#[test]
fn resume_skips_scored_variants_and_is_idempotent() {
    let subjects = vec![subject(1, &["a", "b"]), subject(2, &["a", "c"])];
    let mut client = FakeClient { seen: Vec::new() };
    let mut first = Run::new(config(100), &subjects, &vec![]).ok().unwrap();
    drive(&mut first, &mut client);
    let out1 = first.checkpoint();
    assert_eq!(out1.len(), 4);

    let mut second = Run::new(config(100), &subjects, &out1).ok().unwrap();
    drive(&mut second, &mut client);
    assert_eq!(second.calls_made(), 0);
    assert_eq!(views(&second.checkpoint()), views(&out1));
}

#[test]
fn resume_sends_only_missing_keys() {
    let subjects = vec![subject(1, &["a", "b"])];
    let existing = vec![ScoreRecord { subject_id: 1, key: "a".to_string(), scores: scores(9) }];
    let mut client = FakeClient { seen: vec![(1, "a".to_string())] };
    let mut run = Run::new(config(100), &subjects, &existing).ok().unwrap();
    drive(&mut run, &mut client);
    assert_eq!(run.calls_made(), 1);
    let out = views(&run.checkpoint());
    assert_eq!(out, vec![(1, "a".to_string(), scores(9)), (1, "b".to_string(), scores(1))]);
}

#[test]
fn records_outside_the_input_are_kept() {
    let subjects = vec![subject(1, &["a"])];
    let existing = vec![ScoreRecord { subject_id: 40, key: "z".to_string(), scores: scores(2) }];
    let mut client = FakeClient { seen: Vec::new() };
    let mut run = Run::new(config(100), &subjects, &existing).ok().unwrap();
    drive(&mut run, &mut client);
    let out = views(&run.checkpoint());
    assert_eq!(out.len(), 2);
    assert_eq!(out[1], (40, "z".to_string(), scores(2)));
}

#[test]
fn checkpoint_is_ordered_by_subject() {
    let subjects = vec![subject(5, &["a"]), subject(9, &["a"])];
    let existing = vec![
        ScoreRecord { subject_id: 12, key: "q".to_string(), scores: scores(4) },
        ScoreRecord { subject_id: 2, key: "p".to_string(), scores: scores(3) },
        ScoreRecord { subject_id: 5, key: "old".to_string(), scores: scores(6) },
    ];
    let mut client = FakeClient { seen: Vec::new() };
    let mut run = Run::new(config(100), &subjects, &existing).ok().unwrap();
    drive(&mut run, &mut client);
    let ids: Vec<(u64, String)> = run.checkpoint().iter().map(|r| (r.subject_id, r.key.clone())).collect();
    assert_eq!(
        ids,
        vec![
            (2, "p".to_string()),
            (5, "a".to_string()),
            (5, "old".to_string()),
            (9, "a".to_string()),
            (12, "q".to_string()),
        ]
    );
}

#[test]
fn every_variant_ends_in_exactly_one_place() {
    let base = estimate_tokens(&build_eval_prompt(""));
    let long_answer = "word ".repeat(200);
    let subjects = vec![
        SubjectInput {
            id: 1,
            has_answers: true,
            variants: vec![
                variant("ok", "Say hi", "Hi"),
                variant("empty", "Say hi", "### Response:\n   "),
                variant("big", "Say hi", &long_answer),
                variant("dropped", "Say hi", "Hello"),
            ],
        },
        SubjectInput { id: 2, has_answers: false, variants: vec![] },
        SubjectInput { id: 3, has_answers: true, variants: vec![variant("x", "Say hi", "Hey")] },
    ];
    let mut cfg = config(100);
    cfg.budget = base + 40;
    cfg.max_attempts = 1;
    let mut run = Run::new(cfg, &subjects, &vec![]).ok().unwrap();
    let req = run.next_chunk().unwrap();
    assert_eq!(req.subject_id, 1);
    assert_eq!(req.keys, vec!["ok".to_string(), "dropped".to_string()]);
    let resp = vec![("ok".to_string(), scores(1)), ("dropped".to_string(), vec![1, 2, 3])];
    assert!(matches!(run.record_attempt(Some(resp), 0), AttemptStep::Done { .. }));
    let req = run.next_chunk().unwrap();
    assert_eq!(req.subject_id, 3);
    assert!(matches!(run.record_attempt(None, 0), AttemptStep::GaveUp { attempts: 1 }));
    assert!(run.next_chunk().is_none());
    assert!(!run.stopped_early());

    let scored = run.checkpoint();
    let issues = run.issues();
    let rest = run.unprocessed();
    assert_eq!(views(&scored), vec![(1, "ok".to_string(), scores(1))]);
    assert!(rest.is_empty());
    let kinds: Vec<(u64, Option<String>, IssueKind)> =
        issues.iter().map(|i| (i.subject_id, i.key.clone(), i.kind)).collect();
    assert_eq!(
        kinds,
        vec![
            (2, None, IssueKind::NoAnswerData),
            (1, Some("empty".to_string()), IssueKind::NoAnswer),
            (1, Some("big".to_string()), IssueKind::Oversized),
            (1, Some("dropped".to_string()), IssueKind::MissingFromResponse),
            (3, Some("x".to_string()), IssueKind::CallsFailed),
        ]
    );
    assert_eq!(scored.len() + issues.len() - 1 + rest.len(), 5);
}

#[test]
fn prompt_holds_each_block_with_clean_answer() {
    let subjects = vec![SubjectInput {
        id: 4,
        has_answers: true,
        variants: vec![variant("k1", "Do A", "### Response:\nDone A "), variant("k2", "Do B", "Done B")],
    }];
    let mut run = Run::new(config(100), &subjects, &vec![]).ok().unwrap();
    let req = run.next_chunk().unwrap();
    let section = "### k1\n[Instruction]\nDo A\n\n[Answer]\nDone A\n\n### k2\n[Instruction]\nDo B\n\n[Answer]\nDone B\n\n";
    assert_eq!(req.prompt, build_eval_prompt(section));
}

#[test]
fn next_chunk_waits_for_the_chunk_in_flight() {
    let subjects = vec![subject(1, &["a"]), subject(2, &["a"])];
    let mut run = Run::new(config(100), &subjects, &vec![]).ok().unwrap();
    assert!(run.next_chunk().is_some());
    assert!(run.next_chunk().is_none());
    assert_eq!(run.calls_made(), 0);
    assert!(matches!(run.record_attempt(Some(vec![("a".to_string(), scores(0))]), 0), AttemptStep::Done { .. }));
    assert_eq!(run.next_chunk().unwrap().subject_id, 2);
}

#[test]
fn idle_attempt_changes_nothing() {
    let subjects = vec![subject(1, &["a"])];
    let mut run = Run::new(config(100), &subjects, &vec![]).ok().unwrap();
    assert!(matches!(run.record_attempt(None, 0), AttemptStep::Idle));
    assert_eq!(run.calls_made(), 0);
}

#[test]
fn zero_quota_stops_at_once() {
    let subjects = vec![subject(1, &["a"])];
    let mut run = Run::new(config(0), &subjects, &vec![]).ok().unwrap();
    assert!(run.next_chunk().is_none());
    assert!(run.stopped_early());
    assert_eq!(run.unprocessed(), vec![(1, "a".to_string())]);
}

#[test]
fn subjects_are_taken_in_id_order() {
    let subjects = vec![subject(9, &["a"]), subject(2, &["a"]), subject(5, &["a", "b"])];
    let mut run = Run::new(config(100), &subjects, &vec![]).ok().unwrap();
    let mut order = Vec::new();
    while let Some(req) = run.next_chunk() {
        order.push(req.subject_id);
        let resp: Vec<(String, Vec<u8>)> = req.keys.iter().map(|k| (k.clone(), scores(1))).collect();
        assert!(matches!(run.record_attempt(Some(resp), 0), AttemptStep::Done { .. }));
    }
    assert_eq!(order, vec![2, 5, 9]);
    let ids: Vec<u64> = run.checkpoint().iter().map(|r| r.subject_id).collect();
    assert_eq!(ids, vec![2, 5, 5, 9]);
}

#[test]
fn failed_chunk_does_not_block_later_subjects() {
    let subjects = vec![subject(1, &["a"]), subject(2, &["a"])];
    let mut cfg = config(100);
    cfg.max_attempts = 1;
    let mut run = Run::new(cfg, &subjects, &vec![]).ok().unwrap();
    assert_eq!(run.next_chunk().unwrap().subject_id, 1);
    assert!(matches!(run.record_attempt(None, 0), AttemptStep::GaveUp { attempts: 1 }));
    assert_eq!(run.next_chunk().unwrap().subject_id, 2);
}

#[test]
fn subject_without_answer_data_is_not_scheduled() {
    let mut s = subject(3, &["a", "b"]);
    s.has_answers = false;
    let mut run = Run::new(config(100), &vec![s], &vec![]).ok().unwrap();
    assert!(run.next_chunk().is_none());
    assert!(!run.stopped_early());
    assert_eq!(run.calls_made(), 0);
    let issues = run.issues();
    assert_eq!(issues.len(), 1);
    assert_eq!((issues[0].subject_id, issues[0].kind), (3, IssueKind::NoAnswerData));
    assert!(run.unprocessed().is_empty());
}

#[test]
fn setup_errors() {
    let mut cfg = config(10);
    cfg.max_attempts = 0;
    assert!(matches!(Run::new(cfg, &vec![], &vec![]), Err(RunError::NoAttempts)));
}
