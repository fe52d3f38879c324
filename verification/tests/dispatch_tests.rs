use seekr::dispatch::{Outcome, QueryDispatcher, QueryEvent, ResultEvent};
use seekr::index::{AppIndex, RawEntry};

fn index_of(names: &[&str]) -> AppIndex {
    let raws: Vec<RawEntry> = names
        .iter()
        .map(|n| RawEntry {
            exec_line: format!("{} %u", n.to_lowercase()),
            need_terminal: false,
            icon: None,
            name: n.to_string(),
            description: String::new(),
            path: format!("/apps/{n}.desktop"),
            hidden: false,
        })
        .collect();
    AppIndex::build(raws)
}

fn term(t: &str) -> QueryEvent {
    QueryEvent::Term(t.to_string())
}

#[test]
fn empty_term_always_clears() {
    let mut d = QueryDispatcher::new(index_of(&["Firefox"]));
    // fresh state
    match d.submit(term("")) {
        Outcome::Emit(ResultEvent::Cleared) => {},
        _ => panic!("empty term must clear"),
    }
    // after an arithmetic result
    let _ = d.submit(term("2+2"));
    match d.submit(term("")) {
        Outcome::Emit(ResultEvent::Cleared) => {},
        _ => panic!("empty term must clear after arithmetic"),
    }
    // while a ranking job is pending
    let _ = d.submit(term("fire"));
    match d.submit(term("")) {
        Outcome::Emit(ResultEvent::Cleared) => {},
        _ => panic!("empty term must clear while evaluating"),
    }
}

#[test]
fn math_wins_over_an_app_named_like_the_expression() {
    let mut d = QueryDispatcher::new(index_of(&["2+2"]));
    match d.submit(term("2+2")) {
        Outcome::Emit(ResultEvent::ArithmeticResult(v)) => {
            assert_eq!((v.num as f64) / (v.den as f64), 4.0);
        },
        Outcome::Emit(_) => panic!("expected an arithmetic result"),
        Outcome::StartRank(_, _) => panic!("math must run before app search"),
    }
}

#[test]
fn non_arithmetic_terms_start_ranking() {
    let mut d = QueryDispatcher::new(index_of(&["Firefox"]));
    match d.submit(term("fire")) {
        Outcome::StartRank(q, _) => assert_eq!(q, "fire"),
        Outcome::Emit(_) => panic!("a word must go to matching"),
    }
}

#[test]
fn superseded_generations_are_discarded() {
    let mut d = QueryDispatcher::new(index_of(&["Firefox", "Files"]));
    let (q1, g1) = match d.submit(term("fir")) {
        Outcome::StartRank(q, g) => (q, g),
        _ => panic!("expected a ranking job"),
    };
    let (q2, g2) = match d.submit(term("fire")) {
        Outcome::StartRank(q, g) => (q, g),
        _ => panic!("expected a second ranking job"),
    };
    assert!(g2 > g1);
    // the older job finishes late: its result is dropped
    let stale = d.run_rank(&q1);
    assert!(d.complete_rank(g1, stale).is_none());
    // the current job's result is emitted
    let fresh = d.run_rank(&q2);
    match d.complete_rank(g2, fresh) {
        Some(ResultEvent::Matches(entries)) => {
            assert_eq!(entries.len(), 1);
            assert_eq!(entries[0].name, "Firefox");
        },
        _ => panic!("the newest generation must be emitted"),
    }
}

#[test]
fn represent_reemits_the_last_result() {
    let mut d = QueryDispatcher::new(index_of(&["Firefox"]));
    // nothing computed yet: a redraw shows a cleared view
    match d.submit(QueryEvent::Represent) {
        Outcome::Emit(ResultEvent::Cleared) => {},
        _ => panic!("represent with no result must clear"),
    }
    let _ = d.submit(term("2+2"));
    match d.submit(QueryEvent::Represent) {
        Outcome::Emit(ResultEvent::ArithmeticResult(v)) => {
            assert_eq!((v.num as f64) / (v.den as f64), 4.0);
        },
        _ => panic!("represent must re-emit the arithmetic result"),
    }
    // represent does not bump the generation: the pending job still lands
    let (q, g) = match d.submit(term("fire")) {
        Outcome::StartRank(q, g) => (q, g),
        _ => panic!("expected a ranking job"),
    };
    let _ = d.submit(QueryEvent::Represent);
    let ranked = d.run_rank(&q);
    assert!(d.complete_rank(g, ranked).is_some());
    match d.submit(QueryEvent::Represent) {
        Outcome::Emit(ResultEvent::Matches(entries)) => {
            assert_eq!(entries[0].name, "Firefox");
        },
        _ => panic!("represent must re-emit the match set"),
    }
}
