use markov::markov1D::{draw_bound, Direction1D, MapState1D, Transformation1D};
use markov::{update, EngineError, MapState, MarkovEngine, Match, Rule, Transformation};

fn chars(s: &str) -> Vec<char> {
    s.chars().collect()
}

fn rule(from: &str, to: &str, rule_type: Match, repeat: Option<u64>) -> Rule<Transformation1D<char>> {
    Rule::new(Transformation1D::new(chars(from)), Transformation1D::new(chars(to)), rule_type, repeat)
        .unwrap()
}

#[test]
fn init_state() {
    let map = MapState1D::new(String::from("testing").chars().collect(), None);

    assert_eq!(map.state, vec!['t', 'e', 's', 't', 'i', 'n', 'g']);
}

#[test]
fn linear_find() {
    let map = MapState1D::new(String::from("testing").chars().collect(), None);

    let find = map.linear_match(&Transformation1D { item: vec!['x'] });

    assert!(find.is_none());

    let find = map.linear_match(&Transformation1D { item: vec!['s'] });

    assert!(find.is_some());
    assert_eq!(2, find.unwrap()[0].0);
}

#[test]
fn linear_rules() {
    let map = MapState1D::new(String::from("testing").chars().collect(), None);
    let rules = vec![
        Rule::new(
            Transformation1D::new(vec!['t', 'e']),
            Transformation1D::new(vec![' ', 'H']),
            Match::Linear,
            None,
        )
        .unwrap(),
        Rule::new(Transformation1D::new(vec!['s']), Transformation1D::new(vec!['e']), Match::Linear, None)
            .unwrap(),
        Rule::new(Transformation1D::new(vec!['t']), Transformation1D::new(vec!['l']), Match::Linear, None)
            .unwrap(),
        Rule::new(Transformation1D::new(vec!['i']), Transformation1D::new(vec!['l']), Match::Linear, None)
            .unwrap(),
        Rule::new(
            Transformation1D::new(vec!['n', 'g']),
            Transformation1D::new(vec!['o', ' ']),
            Match::Linear,
            None,
        )
        .unwrap(),
    ];

    let mut engine = MarkovEngine::new(map, rules);
    assert!(engine.finish().is_ok());

    assert_eq!(engine.state.state, [' ', 'H', 'e', 'l', 'l', 'o', ' ']);
}

#[test]
fn random_rule() {
    let map = MapState1D::new(String::from("          ").chars().collect(), None);
    let rules = vec![Rule::new(
        Transformation1D::new(vec![' ']),
        Transformation1D::new(vec!['o']),
        Match::Random { tries: 100 },
        None,
    )
    .unwrap()];

    let mut engine = MarkovEngine::new(map, rules);
    assert!(engine.finish().is_ok());

    let mut found = 0;
    for item in engine.state.state.iter() {
        if item == &'o' {
            found += 1;
        }
    }

    assert_eq!(found, 10);
}

#[test]
fn random_fill_with_seed() {
    let map = MapState1D::new(chars("          "), Some(7));
    let mut engine = MarkovEngine::new(map, vec![rule(" ", "o", Match::Random { tries: 100 }, None)]);
    assert_eq!(engine.finish(), Ok(()));
    assert_eq!(engine.state.state, chars("oooooooooo"));
}

#[test]
fn linear_match_returns_leftmost() {
    let map = MapState1D::new(chars("abcabc"), Some(1));
    let hits = map.linear_match(&Transformation1D::new(chars("bc"))).unwrap();
    assert_eq!(hits.len(), 1);
    assert_eq!(hits[0].0, 1);
    assert_eq!(hits[0].1, Direction1D::Right);
    let last = map.linear_match(&Transformation1D::new(chars("c"))).unwrap();
    assert_eq!(last[0].0, 2);
    let tail = map.linear_match(&Transformation1D::new(chars("abc"))).unwrap();
    assert_eq!(tail[0].0, 0);
    let whole = map.linear_match(&Transformation1D::new(chars("abcabc"))).unwrap();
    assert_eq!(whole[0].0, 0);
    let end = map.linear_match(&Transformation1D::new(chars("ca"))).unwrap();
    assert_eq!(end[0].0, 2);
}

#[test]
fn linear_match_at_last_position() {
    let map = MapState1D::new(chars("xxxyz"), Some(1));
    let hits = map.linear_match(&Transformation1D::new(chars("yz"))).unwrap();
    assert_eq!(hits[0].0, 3);
}

#[test]
fn empty_pattern_matches_at_start() {
    let map = MapState1D::new(chars("abc"), Some(1));
    let hits = map.linear_match(&Transformation1D::new(Vec::new())).unwrap();
    assert_eq!(hits[0].0, 0);
}

#[test]
fn too_long_pattern_finds_nothing() {
    let mut map = MapState1D::new(chars("ab"), Some(3));
    let pattern = Transformation1D::new(chars("abc"));
    assert!(map.linear_match(&pattern).is_none());
    assert!(map.random_match(&pattern, 50).is_none());
    let mut empty = MapState1D::new(Vec::new(), Some(3));
    let one = Transformation1D::new(chars("a"));
    assert!(empty.linear_match(&one).is_none());
    assert!(empty.random_match(&one, 5).is_none());
}

#[test]
fn random_match_same_seed_same_draws() {
    let pattern = Transformation1D::new(chars("a"));
    let mut first = MapState1D::new(chars("bbbbbbbbab"), Some(42));
    let mut second = MapState1D::new(chars("bbbbbbbbab"), Some(42));
    for tries in 1..20u64 {
        let a = first.random_match(&pattern, tries).map(|h| h[0].0);
        let b = second.random_match(&pattern, tries).map(|h| h[0].0);
        assert_eq!(a, b);
    }
    assert_eq!(first.state, second.state);
}

#[test]
fn random_match_hit_fits() {
    let mut map = MapState1D::new(chars("aaaa"), Some(9));
    let hits = map.random_match(&Transformation1D::new(chars("aa")), 10).unwrap();
    assert_eq!(hits.len(), 1);
    assert!(hits[0].0 <= 2);
}

#[test]
fn random_match_with_no_tries_finds_nothing() {
    let mut map = MapState1D::new(chars("aaaa"), Some(9));
    assert!(map.random_match(&Transformation1D::new(chars("a")), 0).is_none());
}

#[test]
fn set_changes_only_the_window() {
    let mut map = MapState1D::new(chars("abcdef"), Some(1));
    map.set(&Transformation1D::new(chars("XY")), &2, &Direction1D::Right);
    assert_eq!(map.state, chars("abXYef"));
    map.set(&Transformation1D::new(chars("ZZ")), &4, &Direction1D::Right);
    assert_eq!(map.state, chars("abXYZZ"));
}

#[test]
fn rule_new_rejects_size_mismatch() {
    let r = Rule::new(
        Transformation1D::new(chars("ab")),
        Transformation1D::new(chars("c")),
        Match::Linear,
        None,
    );
    assert_eq!(r.err(), Some(EngineError::SizeMismatch));
}

#[test]
fn rule_new_keeps_fields() {
    let r = rule("ab", "cd", Match::Random { tries: 3 }, Some(4));
    assert_eq!(r.comp.item, chars("ab"));
    assert_eq!(r.result.item, chars("cd"));
    assert_eq!(r.rule_type, Match::Random { tries: 3 });
    assert_eq!(r.repeat, Some(4));
}

#[test]
fn equal_size_compares_lengths_only() {
    let a = Transformation1D::new(chars("ab"));
    let b = Transformation1D::new(chars("xy"));
    let c = Transformation1D::new(chars("x"));
    assert!(a.equal_size(&b));
    assert!(!a.equal_size(&c));
    assert_eq!(a.get(), &chars("ab"));
}

#[test]
fn use_repeat_saturates() {
    let mut r = rule("a", "b", Match::Linear, Some(2));
    r.use_repeat();
    assert_eq!(r.repeat, Some(1));
    r.use_repeat();
    assert_eq!(r.repeat, Some(0));
    r.use_repeat();
    assert_eq!(r.repeat, Some(0));
    let mut unbounded = rule("a", "b", Match::Linear, None);
    unbounded.use_repeat();
    assert_eq!(unbounded.repeat, None);
}

#[test]
fn repeat_budget_limits_firings() {
    let map = MapState1D::new(chars("aaaaa"), Some(1));
    let mut engine = MarkovEngine::new(map, vec![rule("a", "b", Match::Linear, Some(3))]);
    assert_eq!(engine.finish(), Ok(()));
    assert_eq!(engine.state.state, chars("bbbaa"));
    assert_eq!(engine.rules[0].repeat, Some(0));
}

#[test]
fn spent_rule_is_skipped() {
    let map = MapState1D::new(chars("ab"), Some(1));
    let rules = vec![rule("a", "x", Match::Linear, Some(0)), rule("b", "y", Match::Linear, None)];
    let mut engine = MarkovEngine::new(map, rules);
    {
        let (fired, hits) = engine.update().unwrap().unwrap();
        assert_eq!(fired.comp.item, chars("b"));
        assert_eq!(hits[0].0, 1);
    }
    assert_eq!(engine.state.state, chars("ay"));
    assert!(engine.update().unwrap().is_none());
    assert_eq!(engine.state.state, chars("ay"));
}

#[test]
fn update_applies_first_rule_in_order() {
    let map = MapState1D::new(chars("ab"), Some(1));
    let rules = vec![rule("b", "c", Match::Linear, Some(1)), rule("a", "d", Match::Linear, None)];
    let mut engine = MarkovEngine::new(map, rules);
    {
        let (fired, hits) = engine.update().unwrap().unwrap();
        assert_eq!(fired.result.item, chars("c"));
        assert_eq!(fired.repeat, Some(0));
        assert_eq!(hits.len(), 1);
    }
    assert_eq!(engine.state.state, chars("ac"));
    assert_eq!(engine.rules[0].repeat, Some(0));
}

#[test]
fn finish_twice_changes_nothing() {
    let map = MapState1D::new(chars("testing"), Some(1));
    let rules = vec![
        rule("te", " H", Match::Linear, None),
        rule("s", "e", Match::Linear, None),
        rule("t", "l", Match::Linear, None),
        rule("i", "l", Match::Linear, None),
        rule("ng", "o ", Match::Linear, None),
    ];
    let mut engine = MarkovEngine::new(map, rules);
    assert_eq!(engine.finish(), Ok(()));
    assert_eq!(engine.state.state, chars(" Hello "));
    assert!(engine.update().unwrap().is_none());
    assert_eq!(engine.finish(), Ok(()));
    assert_eq!(engine.state.state, chars(" Hello "));
}

#[test]
fn all_without_conflicts_is_unsupported() {
    let map = MapState1D::new(chars("aa"), Some(1));
    let mut engine = MarkovEngine::new(map, vec![rule("a", "b", Match::AllWithoutConflicts, None)]);
    assert_eq!(engine.finish(), Err(EngineError::Unsupported));
    assert_eq!(engine.state.state, chars("aa"));
}

#[test]
fn all_is_unsupported() {
    let mut map = MapState1D::new(chars("aa"), Some(1));
    let r = rule("a", "b", Match::All, None);
    assert_eq!(update(&mut map, &r), Err(EngineError::Unsupported));
    assert_eq!(map.state, chars("aa"));
    assert_eq!(map.match_all(&r.comp), Err(EngineError::Unsupported));
}

#[test]
fn fixpoint_when_nothing_matches() {
    let map = MapState1D::new(chars("abc"), Some(1));
    let mut engine = MarkovEngine::new(map, vec![rule("z", "y", Match::Linear, None)]);
    assert!(engine.update().unwrap().is_none());
    assert_eq!(engine.finish(), Ok(()));
    assert_eq!(engine.state.state, chars("abc"));
}

#[test]
fn random_match_cannot_miss_when_every_place_fits() {
    let mut map = MapState1D::new(chars("aaaa"), Some(11));
    let hits = map.random_match(&Transformation1D::new(chars("aa")), 1).unwrap();
    assert_eq!(hits.len(), 1);
    assert!(hits[0].0 <= 2);
    assert_eq!(map.state, chars("aaaa"));
}

#[test]
fn random_rule_at_fixpoint_changes_nothing() {
    let map = MapState1D::new(chars("oooo"), Some(5));
    let mut engine = MarkovEngine::new(map, vec![rule(" ", "o", Match::Random { tries: 100 }, None)]);
    assert_eq!(engine.finish(), Ok(()));
    assert_eq!(engine.finish(), Ok(()));
    assert_eq!(engine.state.state, chars("oooo"));
    assert_eq!(engine.rules[0].repeat, None);
}

#[test]
fn draw_bound_is_last_start() {
    assert_eq!(draw_bound(10, 3), Some(7));
    assert_eq!(draw_bound(4, 4), Some(0));
    assert_eq!(draw_bound(5, 0), Some(5));
    assert_eq!(draw_bound(2, 3), None);
    assert_eq!(draw_bound(0, 1), None);
}

#[test]
fn random_try_judges_one_place() {
    let map = MapState1D::new(chars("abcab"), Some(2));
    let pattern = Transformation1D::new(chars("ab"));
    let hit = map.random_try(&pattern, 3).unwrap();
    assert_eq!(hit, vec![(3, Direction1D::Right)]);
    assert!(map.random_try(&pattern, 1).is_none());
    assert!(map.random_try(&pattern, 0).is_some());
}
