use togatog_ai::beam::Beam;
use togatog_ai::search_state::SearchState;

#[test]
fn beam_pops_the_highest_score_first() {
    let mut beam = Beam::new();
    assert_eq!(beam.len(), 0);
    assert!(beam.pop_max().is_none());
    beam.push(SearchState::default().with_search_score(5).with_point(1), 10);
    beam.push(SearchState::default().with_search_score(-3).with_point(2), 10);
    beam.push(SearchState::default().with_search_score(9).with_point(3), 10);
    assert_eq!(beam.len(), 3);
    let first = beam.pop_max().unwrap();
    assert_eq!((first.search_score(), first.point), (9, 3));
    let second = beam.pop_max().unwrap();
    assert_eq!((second.search_score(), second.point), (5, 1));
    let third = beam.pop_max().unwrap();
    assert_eq!((third.search_score(), third.point), (-3, 2));
    assert!(beam.pop_max().is_none());
}

#[test]
fn beam_gives_up_the_lowest_score_beyond_its_width() {
    let mut beam = Beam::new();
    for (score, point) in [(5, 1), (1, 2), (9, 3), (7, 4), (0, 5)] {
        beam.push(SearchState::default().with_search_score(score).with_point(point), 2);
        assert!(beam.len() <= 2);
    }
    assert_eq!(beam.len(), 2);
    assert_eq!(beam.pop_max().unwrap().point, 3);
    assert_eq!(beam.pop_max().unwrap().point, 4);
    assert!(beam.pop_max().is_none());
}

#[test]
fn beam_of_width_zero_keeps_nothing() {
    let mut beam = Beam::new();
    beam.push(SearchState::default().with_search_score(5), 0);
    assert_eq!(beam.len(), 0);
    assert!(beam.pop_max().is_none());
}
