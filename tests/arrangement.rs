use tracklist::medium::first_position;
use tracklist::{
    score_tracklist, Constraint, ConstraintKind, Medium, Track, Tracklist, TracklistPermutations,
};

/// Seconds as whole milliseconds.
fn ms(secs: f64) -> u64 {
    (secs * 1000.0).round() as u64
}

fn all_permutations(tracks: &[Track]) -> Vec<Tracklist> {
    let mut gen = TracklistPermutations::new(tracks);
    let mut out = Vec::new();
    while let Some(perm) = gen.next() {
        out.push(Tracklist::new(perm.into_iter().cloned().collect()));
    }
    out
}

fn sort_by_titles(lists: &mut Vec<Tracklist>) {
    lists.sort_by(|a, b| a.titles().cmp(&b.titles()));
}

#[test]
fn test_tracklist_permutations() {
    let tracks = vec![
        Track::new("A", ms(3.5)),
        Track::new("B", ms(4.0)),
        Track::new("C", ms(2.75)),
    ];

    let mut perms = all_permutations(&tracks);

    assert_eq!(perms.len(), 6);

    let mut expected: Vec<Tracklist> = vec![
        Tracklist::from(vec![("A", ms(3.5)), ("B", ms(4.0)), ("C", ms(2.75))]),
        Tracklist::from(vec![("A", ms(3.5)), ("C", ms(2.75)), ("B", ms(4.0))]),
        Tracklist::from(vec![("B", ms(4.0)), ("A", ms(3.5)), ("C", ms(2.75))]),
        Tracklist::from(vec![("B", ms(4.0)), ("C", ms(2.75)), ("A", ms(3.5))]),
        Tracklist::from(vec![("C", ms(2.75)), ("A", ms(3.5)), ("B", ms(4.0))]),
        Tracklist::from(vec![("C", ms(2.75)), ("B", ms(4.0)), ("A", ms(3.5))]),
    ];

    sort_by_titles(&mut perms);
    sort_by_titles(&mut expected);

    assert_eq!(perms, expected);
}

#[test]
fn test_medium_fits_and_same_side() {
    let tracks = Tracklist::from(vec![
        ("A", ms(10.0)),
        ("B", ms(8.0)),
        ("C", ms(12.0)),
        ("D", ms(7.0)),
    ]);
    let medium = Medium {
        sides: 2,
        max_duration_per_side: ms(20.0),
    };
    assert!(medium.fits(&tracks)); // (A+B=18), (C+D=19)
    assert!(medium.on_same_side(&tracks, "A", "B"));
    assert!(medium.on_same_side(&tracks, "C", "D"));
    assert!(!medium.on_same_side(&tracks, "B", "C"));
    assert!(!medium.on_same_side(&tracks, "A", "D"));

    let medium2 = Medium {
        sides: 2,
        max_duration_per_side: ms(15.0),
    };
    assert!(!medium2.fits(&tracks)); // no 2-side split possible with max 15

    let tracks2 = Tracklist::from(vec![
        ("A", ms(10.0)),
        ("B", ms(5.0)),
        ("C", ms(7.0)),
        ("D", ms(7.0)),
    ]);
    let medium3 = Medium {
        sides: 3,
        max_duration_per_side: ms(12.0),
    };
    assert!(medium3.fits(&tracks2)); // (A=10), (B+C=12), (D=7)
    assert!(medium3.on_same_side(&tracks2, "B", "C"));
    assert!(!medium3.on_same_side(&tracks2, "A", "B"));

    let tracks3 = Tracklist::from(vec![("A", ms(21.0)), ("B", ms(5.0))]);
    let medium4 = Medium {
        sides: 2,
        max_duration_per_side: ms(20.0),
    };
    assert!(!medium4.fits(&tracks3));
}

fn scenario_constraints() -> Vec<Constraint> {
    vec![
        Constraint {
            kind: ConstraintKind::AtPosition("Intro".into(), 0),
            weight: 7,
        },
        Constraint {
            kind: ConstraintKind::Adjacent("First".into(), "Second".into()),
            weight: 5,
        },
        Constraint {
            kind: ConstraintKind::OnSameSide("Second".into(), "Third".into()),
            weight: 2,
        },
    ]
}

#[test]
fn test_score_tracklist() {
    let medium = Medium {
        sides: 2,
        max_duration_per_side: ms(10.0),
    };

    let constraints = scenario_constraints();

    let max_score: usize = constraints.iter().map(|c| c.weight).sum();

    let tracks = Tracklist::from(vec![
        ("Intro", ms(5.0)),
        ("First", ms(5.0)),
        ("Second", ms(2.0)),
        ("Third", ms(2.0)),
    ]);
    // Tracklist respects all constraints
    assert_eq!(score_tracklist(&tracks, &constraints, &medium), max_score);

    // Third is alone on side 2
    let tracks = Tracklist::from(vec![
        ("Intro", ms(5.0)),
        ("First", ms(3.0)),
        ("Second", ms(2.0)),
        ("Third", ms(2.0)),
    ]);
    assert_eq!(
        score_tracklist(&tracks, &constraints, &medium),
        max_score - constraints[2].weight
    );

    // Third is alone on side 2 and First and Second do not follow each other
    let tracks = Tracklist::from(vec![
        ("Intro", ms(5.0)),
        ("Second", ms(2.0)),
        ("First", ms(3.0)),
        ("Third", ms(2.0)),
    ]);
    assert_eq!(
        score_tracklist(&tracks, &constraints, &medium),
        max_score - constraints[2].weight - constraints[1].weight
    );

    // As above, and Intro is not at the beginning
    let tracks = Tracklist::from(vec![
        ("Second", ms(2.0)),
        ("Intro", ms(5.0)),
        ("First", ms(3.0)),
        ("Third", ms(2.0)),
    ]);
    assert_eq!(
        score_tracklist(&tracks, &constraints, &medium),
        max_score - constraints[2].weight - constraints[1].weight - constraints[0].weight
    );
}

#[test]
fn scenario_score_is_fourteen() {
    let medium = Medium {
        sides: 2,
        max_duration_per_side: 10,
    };
    let tracks = Tracklist::from(vec![("Intro", 5), ("First", 5), ("Second", 2), ("Third", 2)]);
    assert_eq!(score_tracklist(&tracks, &scenario_constraints(), &medium), 14);
    assert_eq!(medium.side_assignment(&tracks), vec![0, 0, 1, 1]);
}

#[test]
fn permutations_of_four_distinct_titles() {
    let tracks = vec![
        Track::new("w", 1),
        Track::new("x", 2),
        Track::new("y", 3),
        Track::new("z", 4),
    ];
    let perms = all_permutations(&tracks);
    assert_eq!(perms.len(), 24);
    for (i, a) in perms.iter().enumerate() {
        let mut titles = a.titles();
        titles.sort();
        assert_eq!(titles, vec!["w", "x", "y", "z"]);
        for b in perms.iter().skip(i + 1) {
            assert_ne!(a, b);
        }
    }
}

#[test]
fn permutations_of_empty_set_yield_one_empty_arrangement() {
    let tracks: Vec<Track> = Vec::new();
    let mut gen = TracklistPermutations::new(&tracks);
    assert_eq!(gen.next().map(|p| p.len()), Some(0));
    assert!(gen.next().is_none());
    assert!(gen.next().is_none());
}

#[test]
fn permutations_with_repeated_titles_still_count_index_orderings() {
    let tracks = vec![Track::new("a", 1), Track::new("a", 2), Track::new("b", 3)];
    let perms = all_permutations(&tracks);
    assert_eq!(perms.len(), 6);
}

#[test]
fn permutations_restart_from_the_same_slice() {
    let tracks = vec![Track::new("p", 1), Track::new("q", 2)];
    let first = all_permutations(&tracks);
    let second = all_permutations(&tracks);
    assert_eq!(first, second);
    assert_eq!(first.len(), 2);
}

#[test]
fn fresh_generators_yield_the_same_references_in_order() {
    let tracks = vec![Track::new("p", 1), Track::new("q", 2), Track::new("r", 3)];
    let collect = || {
        let mut gen = TracklistPermutations::new(&tracks);
        let mut seq = Vec::new();
        while let Some(perm) = gen.next() {
            seq.push(perm);
        }
        seq
    };
    let seq1 = collect();
    let seq2 = collect();
    assert_eq!(seq1.len(), 6);
    assert_eq!(seq1.len(), seq2.len());
    for (a, b) in seq1.iter().zip(seq2.iter()) {
        assert_eq!(a.len(), b.len());
        for (x, y) in a.iter().zip(b.iter()) {
            assert!(std::ptr::eq(*x, *y));
        }
    }
}

#[test]
fn permutations_come_in_lexicographic_order_of_positions() {
    let tracks = vec![Track::new("c", 1), Track::new("a", 2), Track::new("b", 3)];
    let titles: Vec<Vec<String>> = all_permutations(&tracks)
        .iter()
        .map(|tl| tl.titles().into_iter().map(String::from).collect())
        .collect();
    let expected: Vec<Vec<&str>> = vec![
        vec!["c", "a", "b"],
        vec!["c", "b", "a"],
        vec!["a", "c", "b"],
        vec!["a", "b", "c"],
        vec!["b", "c", "a"],
        vec!["b", "a", "c"],
    ];
    assert_eq!(titles, expected);
}

#[test]
fn from_keeps_pairs_in_order() {
    let tl = Tracklist::from(vec![("b", 2), ("a", 1), ("c", 3)]);
    assert_eq!(tl.0.len(), 3);
    assert_eq!(tl.titles(), vec!["b", "a", "c"]);
    assert_eq!(tl.0.iter().map(|t| t.duration).collect::<Vec<u64>>(), vec![2, 1, 3]);
}

#[test]
fn permutations_refer_to_the_original_tracks() {
    let tracks = vec![Track::new("p", 1), Track::new("q", 2)];
    let mut gen = TracklistPermutations::new(&tracks);
    let perm = gen.next().unwrap();
    assert_eq!(perm.len(), 2);
    for t in perm {
        assert!(tracks.iter().any(|u| std::ptr::eq(t, u)));
    }
}

#[test]
fn fits_is_monotonic_in_capacity() {
    let tracks = Tracklist::from(vec![("A", 10), ("B", 8), ("C", 12), ("D", 7)]);
    let base = Medium {
        sides: 2,
        max_duration_per_side: 20,
    };
    assert!(base.fits(&tracks));
    for sides in 2..6 {
        for max in 20..40 {
            let larger = Medium {
                sides,
                max_duration_per_side: max,
            };
            assert!(larger.fits(&tracks));
        }
    }
}

#[test]
fn one_long_track_never_fits() {
    let tracks = Tracklist::from(vec![("short", 1), ("long", 101), ("short2", 1)]);
    for sides in 1..10 {
        let medium = Medium {
            sides,
            max_duration_per_side: 100,
        };
        assert!(!medium.fits(&tracks));
    }
}

#[test]
fn greedy_split_fills_each_side_in_order() {
    let tracks = Tracklist::from(vec![("a", 4), ("b", 6), ("c", 5), ("d", 5)]);
    let medium = Medium {
        sides: 2,
        max_duration_per_side: 10,
    };
    assert_eq!(medium.side_assignment(&tracks), vec![0, 0, 1, 1]);
    assert!(medium.fits(&tracks));
    let tracks = Tracklist::from(vec![("a", 6), ("b", 5), ("c", 5), ("d", 4)]);
    assert_eq!(medium.side_assignment(&tracks), vec![0, 1, 1, 2]);
    assert!(!medium.fits(&tracks));
}

#[test]
fn fits_fast_reject_on_total_duration() {
    let tracks = Tracklist::from(vec![("a", 10), ("b", 10), ("c", 10)]);
    let medium = Medium {
        sides: 2,
        max_duration_per_side: 10,
    };
    assert!(!medium.fits(&tracks));
    let medium = Medium {
        sides: 3,
        max_duration_per_side: 10,
    };
    assert!(medium.fits(&tracks));
}

#[test]
fn empty_tracklist_fits() {
    let tracks = Tracklist::new(Vec::new());
    let medium = Medium {
        sides: 1,
        max_duration_per_side: 0,
    };
    assert!(medium.fits(&tracks));
    assert_eq!(medium.side_assignment(&tracks), Vec::<usize>::new());
}

#[test]
fn fits_with_largest_durations() {
    let tracks = Tracklist::from(vec![("a", u64::MAX), ("b", u64::MAX)]);
    let medium = Medium {
        sides: 2,
        max_duration_per_side: u64::MAX,
    };
    assert!(medium.fits(&tracks));
    assert!(!medium.on_same_side(&tracks, "a", "b"));
    let one_side = Medium {
        sides: 1,
        max_duration_per_side: u64::MAX,
    };
    assert!(!one_side.fits(&tracks));
}

#[test]
fn on_same_side_is_symmetric() {
    let tracks = Tracklist::from(vec![("A", 10), ("B", 8), ("C", 12), ("D", 7)]);
    let medium = Medium {
        sides: 2,
        max_duration_per_side: 20,
    };
    let names = ["A", "B", "C", "D", "missing"];
    for a in names {
        for b in names {
            assert_eq!(
                medium.on_same_side(&tracks, a, b),
                medium.on_same_side(&tracks, b, a)
            );
        }
    }
}

#[test]
fn on_same_side_absent_title_is_false() {
    let tracks = Tracklist::from(vec![("A", 1), ("B", 1)]);
    let medium = Medium {
        sides: 1,
        max_duration_per_side: 10,
    };
    assert!(medium.on_same_side(&tracks, "A", "B"));
    assert!(!medium.on_same_side(&tracks, "A", "Z"));
    assert!(!medium.on_same_side(&tracks, "Z", "Z"));
}

#[test]
fn on_same_side_uses_first_occurrence() {
    let tracks = Tracklist::from(vec![("A", 6), ("B", 6), ("A", 6)]);
    let medium = Medium {
        sides: 3,
        max_duration_per_side: 10,
    };
    assert_eq!(medium.side_assignment(&tracks), vec![0, 1, 2]);
    assert!(!medium.on_same_side(&tracks, "A", "B"));
    assert_eq!(first_position(&tracks, "A"), Some(0));
    assert_eq!(first_position(&tracks, "B"), Some(1));
    assert_eq!(first_position(&tracks, "C"), None);
}

#[test]
fn side_assignment_opens_a_side_for_an_oversized_track() {
    let tracks = Tracklist::from(vec![("big", 15), ("small", 3)]);
    let medium = Medium {
        sides: 5,
        max_duration_per_side: 10,
    };
    assert_eq!(medium.side_assignment(&tracks), vec![1, 2]);
}

#[test]
fn score_is_additive() {
    let medium = Medium {
        sides: 2,
        max_duration_per_side: 10,
    };
    let tracks = Tracklist::from(vec![("Intro", 5), ("First", 3), ("Second", 2), ("Third", 2)]);
    let all = scenario_constraints();
    let (c1, c2) = all.split_at(1);
    assert_eq!(
        score_tracklist(&tracks, &all, &medium),
        score_tracklist(&tracks, c1, &medium) + score_tracklist(&tracks, c2, &medium)
    );
    assert_eq!(score_tracklist(&tracks, c1, &medium), 7);
    assert_eq!(score_tracklist(&tracks, c2, &medium), 5);
}

#[test]
fn score_is_bounded_by_total_weight() {
    let medium = Medium {
        sides: 2,
        max_duration_per_side: 10,
    };
    let constraints = scenario_constraints();
    let total: usize = constraints.iter().map(|c| c.weight).sum();
    let tracks = vec![
        Track::new("Intro", 5),
        Track::new("First", 5),
        Track::new("Second", 2),
        Track::new("Third", 2),
    ];
    for perm in all_permutations(&tracks) {
        assert!(score_tracklist(&perm, &constraints, &medium) <= total);
    }
    assert_eq!(score_tracklist(&Tracklist::new(Vec::new()), &constraints, &medium), 0);
    assert_eq!(score_tracklist(&Tracklist::new(Vec::new()), &[], &medium), 0);
}

#[test]
fn constraints_count_independently() {
    let medium = Medium {
        sides: 1,
        max_duration_per_side: 10,
    };
    let tracks = Tracklist::from(vec![("x", 1), ("y", 1)]);
    let constraints = vec![
        Constraint {
            kind: ConstraintKind::Adjacent("x".into(), "y".into()),
            weight: 3,
        },
        Constraint {
            kind: ConstraintKind::OnSameSide("x".into(), "y".into()),
            weight: 4,
        },
        Constraint {
            kind: ConstraintKind::Adjacent("x".into(), "y".into()),
            weight: 0,
        },
    ];
    assert_eq!(score_tracklist(&tracks, &constraints, &medium), 7);
}

#[test]
fn adjacency_is_directional() {
    let medium = Medium {
        sides: 1,
        max_duration_per_side: 10,
    };
    let tracks = Tracklist::from(vec![("x", 1), ("y", 1)]);
    let reversed = vec![Constraint {
        kind: ConstraintKind::Adjacent("y".into(), "x".into()),
        weight: 9,
    }];
    assert_eq!(score_tracklist(&tracks, &reversed, &medium), 0);
    let single = Tracklist::from(vec![("x", 1)]);
    let same = vec![Constraint {
        kind: ConstraintKind::Adjacent("x".into(), "x".into()),
        weight: 9,
    }];
    assert_eq!(score_tracklist(&single, &same, &medium), 0);
}

#[test]
fn at_position_out_of_range_is_unsatisfied() {
    let medium = Medium {
        sides: 1,
        max_duration_per_side: 10,
    };
    let tracks = Tracklist::from(vec![("x", 1), ("y", 1)]);
    let at = |pos: usize| {
        vec![Constraint {
            kind: ConstraintKind::AtPosition("y".into(), pos),
            weight: 2,
        }]
    };
    assert_eq!(score_tracklist(&tracks, &at(1), &medium), 2);
    assert_eq!(score_tracklist(&tracks, &at(0), &medium), 0);
    assert_eq!(score_tracklist(&tracks, &at(2), &medium), 0);
    assert_eq!(score_tracklist(&tracks, &at(usize::MAX), &medium), 0);
}

#[test]
fn tracklist_equality_ignores_durations() {
    let a = Tracklist::from(vec![("x", 1), ("y", 2)]);
    let b = Tracklist::from(vec![("x", 100), ("y", 200)]);
    let c = Tracklist::from(vec![("y", 1), ("x", 2)]);
    let d = Tracklist::from(vec![("x", 1)]);
    assert_eq!(a, b);
    assert_ne!(a, c);
    assert_ne!(a, d);
}

#[test]
fn tracklist_titles_and_duration() {
    let tl = Tracklist::from(vec![("x", 1500), ("y", 2500), ("z", 0)]);
    assert_eq!(tl.titles(), vec!["x", "y", "z"]);
    assert_eq!(tl.duration(), 4000);
    assert_eq!(Tracklist::new(Vec::new()).duration(), 0);
    let t = Track::new("song", 42);
    assert_eq!(t.title, "song");
    assert_eq!(t.duration, 42);
    let built = Tracklist::from_pairs(vec![("x", 1500), ("y", 2500), ("z", 0)]);
    assert_eq!(built.0[1].title, "y");
    assert_eq!(built.0[1].duration, 2500);
}
