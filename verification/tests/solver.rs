use sol_gate::common::{Source, SourceFormat};
use sol_gate::db::SourceLocation;
use sol_gate::files::solver::{holds, is_coverable, solve_files};
use sol_gate::files::FileAcquisitionError;

fn remote(name: &str, size: i64) -> Source {
    Source {
        location: SourceLocation::FSN,
        path: format!("https://r/{}", name),
        h_id: 0,
        size,
        format: SourceFormat::Raw,
    }
}

fn names(chosen: &Vec<Source>) -> Vec<String> {
    let mut names: Vec<String> = chosen.iter().map(|s| s.path.clone()).collect();
    names.sort();
    names
}

#[test]
fn one_required_blob_and_one_source_returns_that_source() {
    let cands = vec![(remote("only", 10), vec![7i64])];
    let chosen = solve_files(&cands, &vec![7]).unwrap();
    assert_eq!(chosen, vec![remote("only", 10)]);
}

#[test]
fn equal_coverage_prefers_the_smaller_source() {
    let cands = vec![(remote("big", 100), vec![1i64, 2]), (remote("small", 40), vec![2i64, 1])];
    let chosen = solve_files(&cands, &vec![1, 2]).unwrap();
    assert_eq!(chosen, vec![remote("small", 40)]);
    let cands = vec![(remote("small", 40), vec![1i64, 2]), (remote("big", 100), vec![2i64, 1])];
    let chosen = solve_files(&cands, &vec![1, 2]).unwrap();
    assert_eq!(chosen, vec![remote("small", 40)]);
}

#[test]
fn minimum_cover_of_four_sources() {
    let (a, b, c) = (1i64, 2i64, 3i64);
    let cands = vec![
        (remote("S1", 50), vec![a, b]),
        (remote("S2", 100), vec![b, c]),
        (remote("S3", 25), vec![a, c]),
        (remote("S4", 10), vec![c]),
    ];
    let chosen = solve_files(&cands, &vec![a, b, c]).unwrap();
    assert_eq!(names(&chosen), vec!["https://r/S1", "https://r/S4"]);
    assert_eq!(chosen.iter().map(|s| s.size).sum::<i64>(), 60);
    assert!(chosen.len() <= 2);
}

#[test]
fn chosen_sources_keep_the_order_of_the_candidates() {
    let cands = vec![
        (remote("x", 1), vec![1i64]),
        (remote("y", 1), vec![2i64]),
        (remote("z", 1), vec![3i64]),
    ];
    let chosen = solve_files(&cands, &vec![3, 1, 2]).unwrap();
    assert_eq!(chosen, vec![remote("x", 1), remote("y", 1), remote("z", 1)]);
}

#[test]
fn cover_is_no_larger_than_a_single_covering_source() {
    let cands = vec![
        (remote("all", 90), vec![1i64, 2, 3]),
        (remote("a", 20), vec![1i64]),
        (remote("b", 30), vec![2i64]),
        (remote("c", 50), vec![3i64]),
    ];
    let chosen = solve_files(&cands, &vec![1, 2, 3]).unwrap();
    assert_eq!(chosen, vec![remote("all", 90)]);
    let cands = vec![
        (remote("all", 101), vec![1i64, 2, 3]),
        (remote("a", 20), vec![1i64]),
        (remote("b", 30), vec![2i64]),
        (remote("c", 50), vec![3i64]),
    ];
    let chosen = solve_files(&cands, &vec![1, 2, 3]).unwrap();
    assert_eq!(names(&chosen), vec!["https://r/a", "https://r/b", "https://r/c"]);
}

#[test]
fn nothing_required_chooses_nothing() {
    let cands = vec![(remote("a", 0), vec![1i64]), (remote("b", 5), vec![2i64])];
    assert_eq!(solve_files(&cands, &vec![]).unwrap(), vec![]);
    assert_eq!(solve_files(&vec![], &vec![]).unwrap(), vec![]);
}

#[test]
fn uncovered_blob_is_unsatisfiable() {
    let cands = vec![(remote("a", 1), vec![1i64]), (remote("b", 1), vec![2i64])];
    assert!(matches!(
        solve_files(&cands, &vec![1, 2, 3]),
        Err(FileAcquisitionError::UnsatisfiableCoverage)
    ));
    assert!(matches!(
        solve_files(&vec![], &vec![1]),
        Err(FileAcquisitionError::UnsatisfiableCoverage)
    ));
    assert!(!is_coverable(&cands, &vec![1, 2, 3]));
    assert!(is_coverable(&cands, &vec![2, 1]));
}

#[test]
fn required_blob_listed_twice_is_covered_once() {
    let cands = vec![(remote("a", 3), vec![1i64, 1, 1])];
    assert_eq!(solve_files(&cands, &vec![1, 1]).unwrap(), vec![remote("a", 3)]);
}

#[test]
fn solver_handles_twenty_sources() {
    let mut cands = Vec::new();
    for i in 0..20i64 {
        cands.push((remote(&format!("s{}", i), 10 + i), vec![i, (i + 1) % 20]));
    }
    let required: Vec<i64> = (0..20).collect();
    let chosen = solve_files(&cands, &required).unwrap();
    let total: i64 = chosen.iter().map(|s| s.size).sum();
    assert_eq!(chosen.len(), 10);
    assert_eq!(total, (0..20).step_by(2).map(|i| 10 + i).sum::<i64>());
}

#[test]
fn solver_handles_forty_sources_that_are_all_needed() {
    let mut cands = Vec::new();
    for i in 0..40i64 {
        cands.push((remote(&format!("s{}", i), 5), vec![i]));
    }
    let required: Vec<i64> = (0..40).rev().collect();
    let chosen = solve_files(&cands, &required).unwrap();
    assert_eq!(chosen.len(), 40);
    assert_eq!(chosen.iter().map(|s| s.size).sum::<i64>(), 200);
}

#[test]
fn solver_handles_overlapping_sources() {
    let mut seed: u64 = 12345;
    let mut next = move || {
        seed = seed.wrapping_mul(6364136223846793005).wrapping_add(1442695040888963407);
        (seed >> 33) as i64
    };
    let mut cands = Vec::new();
    for i in 0..28 {
        let size = 10 + next() % 90;
        let mut covers = Vec::new();
        for b in 0..14i64 {
            if next() % 4 == 0 {
                covers.push(b);
            }
        }
        cands.push((remote(&format!("s{}", i), size), covers));
    }
    let required: Vec<i64> = (0..14).collect();
    assert!(is_coverable(&cands, &required));
    let chosen = solve_files(&cands, &required).unwrap();
    let total: i64 = chosen.iter().map(|s| s.size).sum();
    for b in &required {
        assert!(cands.iter().any(|(s, covers)| chosen.contains(s) && covers.contains(b)));
    }
    let n = cands.len();
    let mut best = i64::MAX;
    for mask in 0u32..(1 << n) {
        let mut cost = 0;
        let mut seen = 0u32;
        for (i, (s, covers)) in cands.iter().enumerate() {
            if mask & (1 << i) != 0 {
                cost += s.size;
                for b in covers {
                    seen |= 1 << b;
                }
            }
        }
        if seen == (1 << 14) - 1 && cost < best {
            best = cost;
        }
        if mask > (1 << 22) {
            break;
        }
    }
    assert!(total <= best);
}

#[test]
fn holds_finds_a_blob_in_a_list() {
    assert!(holds(&vec![3, 1, 2], 1));
    assert!(!holds(&vec![3, 1, 2], 4));
    assert!(!holds(&vec![], 4));
}
