use markov::choice::Choice;
use markov::graph::Graph;
use markov::link::Link;
use markov::traversal::Traversal;

#[test]
fn traversal_generator_under_returns_lowest() {
    let mut graph = Graph::default();

    graph.new_edge(Box::from(2))
        .towards(15, Box::from(15))
        .towards(10, Box::from(10))
        .towards(5, Box::from(5));

    let generator = || { 0.0 };
    let mut traversal = graph.new_traversal(Box::from(2));

    let result = &match traversal.total_weight() {
        Some(total) => traversal.advance((generator() * total as f32).floor() as i32),
        None => None,
    };

    let expected_current = Box::from(5);
    assert_eq!(result, &Some(expected_current.clone()));
    assert_eq!(traversal.current, expected_current.clone());
}

#[test]
fn traversal_generator_after_first_returns_next() {
    let mut graph = Graph::default();
    graph.new_edge(Box::from(2))
        .towards(15, Box::from(15))
        .towards(10, Box::from(10))
        .towards(5, Box::from(5));

    let generator = || { 0.9 };
    let mut traversal = graph.new_traversal(Box::from(2));

    let result = &match traversal.total_weight() {
        Some(total) => traversal.advance((generator() * total as f32).floor() as i32),
        None => None,
    };

    let expected_current = Box::from(15);
    assert_eq!(result, &Some(expected_current.clone()));
    assert_eq!(traversal.current, expected_current.clone());
}

#[test]
fn traversal_generator_after_first_returns_middle() {
    let mut graph = Graph::default();
    graph.new_edge(Box::from(2))
        .towards(15, Box::from(15))
        .towards(10, Box::from(10))
        .towards(5, Box::from(5));

    let generator = || { 0.4 };
    let mut traversal = graph.new_traversal(Box::from(2));
    let result = &match traversal.total_weight() {
        Some(total) => traversal.advance((generator() * total as f32).floor() as i32),
        None => None,
    };

    let expected_current = Box::from(10);
    assert_eq!(result, &Some(expected_current.clone()));
    assert_eq!(traversal.current, expected_current.clone());
}

#[test]
fn traversal_generator_current_no_values_returns_none() {
    let mut graph = Graph::default();

    graph.new_edge(Box::from(2))
        .towards(15, Box::from(15))
        .towards(10, Box::from(10))
        .towards(5, Box::from(5));

    let generator = || { 0.9 };
    let mut traversal = graph.new_traversal(Box::from(30));
    let result = &match traversal.total_weight() {
        Some(total) => traversal.advance((generator() * total as f32).floor() as i32),
        None => None,
    };

    assert_eq!(result, &None);
    assert_eq!(traversal.current, Box::from(30));

    assert_eq!(traversal.advance(27), None);
    assert_eq!(traversal.current, Box::from(30));
}

#[test]
fn total_weight_is_that_of_the_current_link() {
    let mut graph = Graph::default();
    graph.new_edge("2").towards(15, "15").towards(10, "10").towards(5, "5");
    graph.new_edge("15").towards(-4, "2");

    assert_eq!(graph.new_traversal("2").total_weight(), Some(30));
    assert_eq!(graph.new_traversal("15").total_weight(), Some(-4));
    assert_eq!(graph.new_traversal("30").total_weight(), None);
}

#[test]
fn advance_takes_the_last_choice_not_above_the_threshold() {
    let mut graph = Graph::default();
    graph.new_edge("2").towards(15, "15").towards(10, "10").towards(5, "5");

    let steps = [
        (i32::MIN, "5"),
        (-1, "5"),
        (0, "5"),
        (4, "5"),
        (5, "5"),
        (9, "5"),
        (10, "10"),
        (12, "10"),
        (14, "10"),
        (15, "15"),
        (27, "15"),
        (i32::MAX, "15"),
    ];
    for (threshold, expected) in steps {
        let mut traversal = Traversal::new("2", &graph);
        assert_eq!(traversal.advance(threshold), Some(expected));
        assert_eq!(traversal.current, expected);
    }
}

#[test]
fn advance_at_zero_takes_the_lightest_of_positive_weights() {
    let mut graph = Graph::default();
    graph.new_edge('s').towards(8, 'a').towards(3, 'b').towards(3, 'c').towards(21, 'd');

    let mut traversal = graph.new_traversal('s');
    assert_eq!(traversal.advance(0), Some('b'));
    assert_eq!(traversal.current, 'b');
}

#[test]
fn advance_at_zero_passes_all_weights_up_to_zero() {
    let mut graph = Graph::default();
    graph.new_edge('s').towards(0, 'a').towards(-5, 'b').towards(4, 'c');

    let mut traversal = graph.new_traversal('s');
    assert_eq!(traversal.advance(0), Some('a'));
    assert_eq!(traversal.current, 'a');

    let mut equal = Graph::default();
    equal.new_edge('s').towards(0, 'a').towards(0, 'b');
    assert_eq!(equal.new_traversal('s').advance(0), Some('b'));
}

#[test]
fn advance_above_all_weights_takes_the_heaviest() {
    let mut graph = Graph::default();
    graph.new_edge(1).towards(6, 60).towards(2, 20).towards(9, 90).towards(9, 91);

    let mut traversal = graph.new_traversal(1);
    assert_eq!(traversal.total_weight(), Some(26));
    assert_eq!(traversal.advance(9), Some(91));
    assert_eq!(traversal.current, 91);

    let mut again = graph.new_traversal(1);
    assert_eq!(again.advance(25), Some(91));
}

#[test]
fn advance_compares_each_weight_alone_not_a_running_sum() {
    let mut graph = Graph::default();
    graph.new_edge("s").towards(1, "a").towards(1, "b").towards(1, "c");

    let mut traversal = graph.new_traversal("s");
    assert_eq!(traversal.advance(1), Some("c"));
    assert_eq!(traversal.current, "c");
}

#[test]
fn advance_finds_no_next_state_in_an_empty_link() {
    let mut graph = Graph::default();
    graph.value_to_link.insert("lonely", Link::default());

    let mut traversal = graph.new_traversal("lonely");
    assert_eq!(traversal.total_weight(), Some(0));
    assert_eq!(traversal.advance(0), None);
    assert_eq!(traversal.current, "lonely");
    assert_eq!(traversal.advance(i32::MAX), None);
    assert_eq!(traversal.current, "lonely");
}

#[test]
fn advance_walks_until_a_state_without_link() {
    let mut graph = Graph::default();
    graph.new_edge("Start").towards(2, "Corridor").towards(1, "End");
    graph.new_edge("Corridor").towards(1, "End");

    let mut traversal = graph.new_traversal("Start");
    assert_eq!(traversal.advance(2), Some("Corridor"));
    assert_eq!(traversal.advance(0), Some("End"));
    assert_eq!(traversal.advance(0), None);
    assert_eq!(traversal.current, "End");
}

#[test]
fn traversals_of_one_graph_do_not_disturb_each_other() {
    let mut graph = Graph::default();
    graph.new_edge(0).towards(1, 1).towards(2, 2);
    graph.new_edge(1).towards(1, 0);

    let mut first = graph.new_traversal(0);
    let mut second = graph.new_traversal(0);
    assert_eq!(first.advance(0), Some(1));
    assert_eq!(second.advance(2), Some(2));
    assert_eq!(first.advance(0), Some(0));
    assert_eq!(second.advance(0), None);
    assert_eq!(first.current, 0);
    assert_eq!(second.current, 2);
    assert_eq!(graph.value_to_link.get(&0), Some(&Link {
        total_weight: 3,
        list: vec![Choice { weight: 1, value: 1 }, Choice { weight: 2, value: 2 }],
    }));
}

#[test]
fn samples_scale_to_thresholds_and_thresholds_to_states() {
    let mut graph = Graph::default();
    graph.new_edge("2").towards(15, "15").towards(10, "10").towards(5, "5");
    assert_eq!(graph.value_to_link.get(&"2").unwrap().total_weight, 30);

    let cases: [(f32, i32, &str); 3] = [(0.0, 0, "5"), (0.9, 27, "15"), (0.4, 12, "10")];
    for (sample, threshold, expected) in cases {
        let mut traversal = graph.new_traversal("2");
        let total = traversal.total_weight().unwrap();
        assert_eq!((sample * total as f32).floor() as i32, threshold);
        assert_eq!(traversal.advance(threshold), Some(expected));
        assert_eq!(traversal.current, expected);
    }
}
