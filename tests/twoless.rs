use twoless::sat::{SATClause, SATLiteral, SAT};
use twoless::triplet::{generate_cnf, Triplet, TripletSequence, TripletSet};

fn t(x: u8, y: u8, z: u8) -> Triplet {
    Triplet { x, y, z }
}

fn text(sat: &SAT) -> String {
    let mut out: Vec<u8> = Vec::new();
    sat.write_to_file(&mut out);
    String::from_utf8(out).unwrap()
}

fn count_less(a: &Triplet, b: &Triplet) -> u32 {
    (a.x < b.x) as u32 + (a.y < b.y) as u32 + (a.z < b.z) as u32
}

#[test]
fn two_less_needs_two_coordinates() {
    assert!(t(1, 1, 3).two_less(&t(2, 2, 1)));
    assert!(t(1, 3, 1).two_less(&t(2, 1, 2)));
    assert!(t(3, 1, 1).two_less(&t(1, 2, 2)));
    assert!(t(1, 1, 1).two_less(&t(2, 2, 2)));
    assert!(!t(1, 2, 2).two_less(&t(2, 2, 2)));
    assert!(!t(2, 2, 2).two_less(&t(1, 1, 1)));
}

#[test]
fn two_less_is_irreflexive() {
    for x in 1..=3u8 {
        for y in 1..=3u8 {
            for z in 1..=3u8 {
                assert!(!t(x, y, z).two_less(&t(x, y, z)));
            }
        }
    }
}

#[test]
fn two_less_matches_coordinate_count() {
    let set = TripletSet::new(3);
    for i in 0..27u32 {
        for j in 0..27u32 {
            let a = set.triplet(i);
            let b = set.triplet(j);
            assert_eq!(a.two_less(&b), count_less(&a, &b) >= 2);
        }
    }
}

#[test]
fn universe_sizes() {
    let set = TripletSet::new(3);
    assert_eq!(set.max_value(), 3);
    assert_eq!(set.max_index(), 27);
    assert_eq!(TripletSet::new(255).max_index(), 16_581_375);
}

#[test]
fn decode_uses_base_n_digits() {
    let set = TripletSet::new(3);
    assert_eq!(set.triplet(0), t(1, 1, 1));
    assert_eq!(set.triplet(1), t(2, 1, 1));
    assert_eq!(set.triplet(3), t(1, 2, 1));
    assert_eq!(set.triplet(9), t(1, 1, 2));
    assert_eq!(set.triplet(26), t(3, 3, 3));
    assert_eq!(set.triplet(27), t(1, 1, 1));
}

#[test]
fn decode_encode_round_trip() {
    for n in 1..=5u8 {
        let set = TripletSet::new(n);
        let m = set.max_index();
        for i in 0..m {
            let tr = set.triplet(i);
            assert!(1 <= tr.x && tr.x <= n);
            assert!(1 <= tr.y && tr.y <= n);
            assert!(1 <= tr.z && tr.z <= n);
            assert_eq!(set.encode(&tr), i);
        }
    }
    assert_eq!(TripletSet::new(4).encode(&t(2, 3, 4)), 1 + 4 * 2 + 16 * 3);
}

#[test]
fn literal_fields() {
    let l = SATLiteral::new(40_000, 7, true);
    assert_eq!(l.triplet_index(), 40_000);
    assert_eq!(l.triplet_index_in_sequence(), 7);
    assert!(l.is_inverted());
    assert!(!SATLiteral::new(3, 1, false).is_inverted());
}

#[test]
fn clause_counts_for_two_by_two() {
    let set = TripletSet::new(2);
    let sat = TripletSequence::new(set, 2).generate_sat();
    let clauses = sat.clauses();
    let mut incomparable = 0usize;
    for j in 1..8u32 {
        for i in 1..8u32 {
            if count_less(&set.triplet(i), &set.triplet(j)) < 2 {
                incomparable += 1;
            }
        }
    }
    // coverage: k; uniqueness: n^3 * k(k-1)/2; ordering: k(k-1)/2 * incomparable
    assert_eq!(incomparable, 43);
    assert_eq!(clauses.len(), 2 + 8 + incomparable);
    assert_eq!(clauses[0].literals().len(), 7);
    assert_eq!(clauses[1].literals().len(), 7);
    for c in &clauses[2..] {
        assert_eq!(c.literals().len(), 2);
        assert!(c.literals().iter().all(|l| l.is_inverted()));
    }
    for c in &clauses[10..] {
        assert!(c.literals().iter().all(|l| l.triplet_index() < 8));
    }
    let last = clauses[clauses.len() - 1].literals();
    assert_eq!((last[0].triplet_index(), last[0].triplet_index_in_sequence()), (7, 1));
    assert_eq!((last[1].triplet_index(), last[1].triplet_index_in_sequence()), (7, 2));
    let first = &clauses[2].literals();
    assert_eq!((first[0].triplet_index(), first[0].triplet_index_in_sequence()), (1, 1));
    assert_eq!((first[1].triplet_index(), first[1].triplet_index_in_sequence()), (1, 2));
}

#[test]
fn clause_counts_for_three_positions() {
    let set = TripletSet::new(2);
    let sat = TripletSequence::new(set, 3).generate_sat();
    let mut incomparable = 0usize;
    for j in 1..8u32 {
        for i in 1..8u32 {
            if count_less(&set.triplet(i), &set.triplet(j)) < 2 {
                incomparable += 1;
            }
        }
    }
    assert_eq!(sat.clauses().len(), 3 + 8 * 3 + 3 * incomparable);
}

#[test]
fn header_counts_for_two_by_two() {
    let set = TripletSet::new(2);
    let sat = TripletSequence::new(set, 2).generate_sat();
    let mut incomparable = 0usize;
    for j in 1..8u32 {
        for i in 1..8u32 {
            if count_less(&set.triplet(i), &set.triplet(j)) < 2 {
                incomparable += 1;
            }
        }
    }
    let out = text(&sat);
    let lines: Vec<&str> = out.lines().collect();
    assert_eq!(lines[0], "c 2-Less - Set Max (n): 2 - Sequence length (k): 2");
    assert_eq!(lines[1], "");
    assert_eq!(lines[2], format!("p cnf 16 {}", 2 + 8 + incomparable));
    assert_eq!(lines[2], "p cnf 16 53");
    assert_eq!(lines[3], "");
    assert_eq!(lines[4], "c VAR 1: Triplet: (2, 1, 1), Pos in sequence: 1");
    assert_eq!(lines[18], "c VAR 15: Triplet: (1, 1, 1), Pos in sequence: 1");
    assert_eq!(lines[19], "c VAR 16: Triplet: (1, 1, 1), Pos in sequence: 2");
    assert_eq!(lines[20], "");
    assert_eq!(lines[21], "1 2 3 4 5 6 7 0");
    assert_eq!(lines[22], "8 9 10 11 12 13 14 0");
    assert_eq!(lines[23], "-1 -8 0");
    assert_eq!(lines[30], "-15 -16 0");
    assert_eq!(lines[lines.len() - 1], "-7 -14 0");
    assert_eq!(lines.len(), 21 + 2 + 8 + incomparable);
}

#[test]
fn header_counts_for_three_by_two() {
    let out = String::from_utf8(generate_cnf(3, 2).unwrap()).unwrap();
    assert_eq!(out.lines().nth(2), Some("p cnf 54 536"));
}

#[test]
fn single_triplet_gives_empty_coverage_clause() {
    let sat = TripletSequence::new(TripletSet::new(1), 1).generate_sat();
    assert_eq!(sat.clauses().len(), 1);
    assert_eq!(sat.clauses()[0].literals().len(), 0);
    assert_eq!(
        text(&sat),
        "c 2-Less - Set Max (n): 1 - Sequence length (k): 1\n\np cnf 0 1\n\n\n0\n"
    );
}

#[test]
fn single_triplet_two_positions_exact_text() {
    let sat = TripletSequence::new(TripletSet::new(1), 2).generate_sat();
    assert_eq!(
        text(&sat),
        "c 2-Less - Set Max (n): 1 - Sequence length (k): 2\n\np cnf 2 3\n\n\
         c VAR 1: Triplet: (1, 1, 1), Pos in sequence: 1\n\
         c VAR 2: Triplet: (1, 1, 1), Pos in sequence: 2\n\n0\n0\n-1 -2 0\n"
    );
}

#[test]
fn zero_positions_give_no_clauses() {
    let sat = TripletSequence::new(TripletSet::new(2), 0).generate_sat();
    assert_eq!(sat.clauses().len(), 0);
    assert_eq!(
        text(&sat),
        "c 2-Less - Set Max (n): 2 - Sequence length (k): 0\n\np cnf 0 0\n\n\n"
    );
}

#[test]
fn numbering_follows_first_use() {
    let clauses = vec![
        SATClause::new(vec![SATLiteral::new(5, 1, false), SATLiteral::new(3, 2, true)]),
        SATClause::new(vec![
            SATLiteral::new(3, 2, false),
            SATLiteral::new(5, 1, true),
            SATLiteral::new(2, 1, false),
        ]),
    ];
    let sat = SAT::new(clauses, TripletSet::new(2), 2);
    assert_eq!(
        text(&sat),
        "c 2-Less - Set Max (n): 2 - Sequence length (k): 2\n\np cnf 3 2\n\n\
         c VAR 1: Triplet: (2, 1, 2), Pos in sequence: 1\n\
         c VAR 2: Triplet: (2, 2, 1), Pos in sequence: 2\n\
         c VAR 3: Triplet: (1, 2, 1), Pos in sequence: 1\n\n\
         1 -2 0\n2 -1 3 0\n"
    );
}

#[test]
fn numbering_ids_are_dense() {
    let sat = TripletSequence::new(TripletSet::new(2), 3).generate_sat();
    let out = text(&sat);
    let header: Vec<usize> = out
        .lines()
        .nth(2)
        .unwrap()
        .split(' ')
        .skip(2)
        .map(|w| w.parse().unwrap())
        .collect();
    let num_vars = header[0];
    let ids: Vec<usize> = out
        .lines()
        .filter(|l| l.starts_with("c VAR "))
        .map(|l| l[6..l.find(':').unwrap()].parse().unwrap())
        .collect();
    assert_eq!(ids, (1..=num_vars).collect::<Vec<usize>>());
    assert_eq!(num_vars, 8 * 3);
    let mut seen = std::collections::HashSet::new();
    for c in sat.clauses() {
        for l in c.literals() {
            seen.insert((l.triplet_index(), l.triplet_index_in_sequence()));
        }
    }
    assert_eq!(seen.len(), num_vars);
}

#[test]
fn literal_count_sums_clause_lengths() {
    let sat = TripletSequence::new(TripletSet::new(2), 2).generate_sat();
    let total: usize = sat.clauses().iter().map(|c| c.literals().len()).sum();
    assert_eq!(sat.literal_count(), Some(total));
    assert_eq!(total, 14 + 2 * (sat.clauses().len() - 2));
}

#[test]
fn output_is_deterministic() {
    let a = generate_cnf(2, 2).unwrap();
    let b = generate_cnf(2, 2).unwrap();
    assert_eq!(a, b);
    let sat = TripletSequence::new(TripletSet::new(2), 2).generate_sat();
    assert_eq!(String::from_utf8(a).unwrap(), text(&sat));
    assert_eq!(generate_cnf(3, 2).unwrap(), generate_cnf(3, 2).unwrap());
}
