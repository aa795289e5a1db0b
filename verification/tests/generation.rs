use brain::Brain;

fn ctx(items: &[&str]) -> Vec<String> {
    items.iter().map(|s| s.to_string()).collect()
}

fn s(x: &str) -> String {
    x.to_string()
}

#[test]
fn counts_accumulate_across_training_calls() {
    let mut b = Brain::default();
    assert_eq!(b.count(&ctx(&["a"]), &s(".")), 0);
    b.train("a.");
    assert_eq!(b.count(&ctx(&["a"]), &s(".")), 1);
    b.train("a.");
    assert_eq!(b.count(&ctx(&["a"]), &s(".")), 2);
    assert_eq!(b.count(&ctx(&["a"]), &s("z")), 0);
}

#[test]
fn training_records_every_context_length() {
    let mut b = Brain::default();
    b.train("a.b");
    assert_eq!(b.count(&ctx(&["a"]), &s(".")), 1);
    assert_eq!(b.count(&ctx(&["."]), &s("b")), 1);
    assert_eq!(b.count(&ctx(&["a", "."]), &s("b")), 1);
    assert_eq!(b.count(&ctx(&["b"]), &s("a")), 0);
}

#[test]
fn training_caps_context_length() {
    let mut b = Brain::default();
    b.train("a.b.c.d");
    // The history holds at most five tokens, so a five-token context is
    // recorded and a six-token one is not.
    assert_eq!(b.count(&ctx(&[".", "b", ".", "c", "."]), &s("d")), 1);
    assert_eq!(b.count(&ctx(&["a", ".", "b", ".", "c", "."]), &s("d")), 0);
}

#[test]
fn prompt_on_empty_model_returns_seed() {
    let b = Brain::default();
    assert_eq!(b.prompt("Hello, World!", 50), "Hello, World!");
}

#[test]
fn prompt_when_target_already_met() {
    let b = Brain::default();
    assert_eq!(b.prompt("Hello,", 1), "Hello,");
}

#[test]
fn prompt_follows_deterministic_chain() {
    let mut b = Brain::default();
    b.train("a.b");
    assert_eq!(b.prompt("a", 3), "a.b");
    assert_eq!(b.prompt("a", 2), "a.");
    assert_eq!(b.prompt("a", 1), "a");
}

#[test]
fn prompt_stops_when_no_context_matches() {
    let mut b = Brain::default();
    b.train("a.b");
    assert_eq!(b.prompt("x", 10), "x");
}

#[test]
fn prompt_prefers_the_longest_context() {
    let mut b = Brain::default();
    b.train("za.");
    b.train("ba,");
    // After the seed "ba" both the one-token context ["a"] (which also
    // predicts ".") and the two-token context ["b", "a"] (which only
    // predicts ",") match; the longer context must win every time.
    for _ in 0..50 {
        assert_eq!(b.prompt("ba", 3), "ba,");
    }
}

#[test]
fn prompt_samples_by_recorded_weight() {
    let mut b = Brain::default();
    b.train("!a");
    b.train("!a");
    b.train("!a");
    b.train("!b");
    let trials = 2000;
    let mut hits_a = 0;
    for _ in 0..trials {
        let r = b.prompt("!", 2);
        assert!(r == "!a" || r == "!b");
        if r == "!a" {
            hits_a += 1;
        }
    }
    // Candidate counts are 3 and 1, so about three quarters of the samples
    // should pick "a"; allow a wide margin around 1500 of 2000.
    assert!(hits_a >= 1350, "too few weighted hits: {hits_a}");
    assert!(hits_a <= 1650, "too many weighted hits: {hits_a}");
}

#[test]
fn prompt_never_exceeds_target_and_keeps_seed() {
    let mut b = Brain::default();
    b.train("a.b.c.d.e.f");
    let out = b.prompt("a", 7);
    let out_tokens = Brain::tokenize(&out);
    assert!(out_tokens.len() <= 7);
    assert!(out.starts_with('a'));
}
