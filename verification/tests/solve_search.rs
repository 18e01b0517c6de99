use anagrams::search::join_words;
use anagrams::search::solve;
use anagrams::vector::Comparison;
use anagrams::vector::Occurrences;

fn words(items: &[&str]) -> Vec<String> {
    items.iter().map(|s| s.to_string()).collect()
}

fn lines(solutions: &[Vec<String>]) -> Vec<String> {
    solutions.iter().map(join_words).collect()
}

#[test]
fn double_use_of_one_candidate() {
    let sols = solve("AA", &words(&["A"])).unwrap();
    assert_eq!(sols, vec![words(&["A", "A"])]);
    assert_eq!(lines(&sols), vec!["A A".to_string()]);
}

#[test]
fn two_candidates_in_input_order() {
    let sols = solve("AB", &words(&["A", "B"])).unwrap();
    assert_eq!(sols, vec![words(&["A", "B"])]);
    assert_eq!(lines(&sols), vec!["A B".to_string()]);
}

#[test]
fn both_decompositions_reported() {
    let sols = solve("ABC", &words(&["AB", "C", "ABC"])).unwrap();
    assert!(sols.contains(&words(&["AB", "C"])));
    assert!(sols.contains(&words(&["ABC"])));
    assert_eq!(sols, vec![words(&["AB", "C"]), words(&["ABC"])]);
}

#[test]
fn no_candidate_fits_no_output() {
    let sols = solve("XYZ", &words(&["A", "B"])).unwrap();
    assert!(sols.is_empty());
}

#[test]
fn overshooting_branch_excluded() {
    let sols = solve("AAB", &words(&["A", "AB"])).unwrap();
    assert_eq!(sols, vec![words(&["A", "AB"])]);
    assert_eq!(lines(&sols), vec!["A AB".to_string()]);
}

#[test]
fn malformed_candidate_is_fatal() {
    let err = solve("AB", &words(&["A", "123", "B"])).unwrap_err();
    assert_eq!(err.index, 1);
    assert_eq!(err.word, "123");
}

#[test]
fn malformed_candidate_reported_even_if_beyond_target() {
    let err = solve("A", &words(&["XYZ", "!!!"])).unwrap_err();
    assert_eq!(err.index, 1);
    assert_eq!(err.word, "!!!");
}

#[test]
fn target_case_does_not_matter() {
    let candidates = words(&["at", "c", "ta", "cat"]);
    let lower = solve("cat", &candidates).unwrap();
    let upper = solve("CAT", &candidates).unwrap();
    assert_eq!(lower, upper);
    assert_eq!(
        lower,
        vec![words(&["at", "c"]), words(&["c", "ta"]), words(&["cat"])]
    );
}

#[test]
fn solutions_sum_to_target_vector() {
    let target = "LETTERS";
    let sols = solve(target, &words(&["LET", "TERS", "LETTERS", "T"])).unwrap();
    assert!(!sols.is_empty());
    let tv = Occurrences::from_string(target);
    for sol in &sols {
        let mut sum = Occurrences::null();
        for word in sol {
            sum = sum.add(Occurrences::from_string(word));
        }
        assert_eq!(sum.compare(&tv), Comparison::Equal);
    }
}

#[test]
fn empty_target_has_the_empty_solution() {
    let sols = solve("", &words(&["A"])).unwrap();
    assert_eq!(sols, vec![words(&[])]);
    assert_eq!(lines(&sols), vec![String::new()]);
}

#[test]
fn no_candidates_no_solutions() {
    let sols = solve("ABC", &words(&[])).unwrap();
    assert!(sols.is_empty());
}

#[test]
fn non_letters_in_target_ignored() {
    let sols = solve("A-B", &words(&["A", "B"])).unwrap();
    assert_eq!(sols, vec![words(&["A", "B"])]);
}

#[test]
fn repeated_uses_enumerated_in_order() {
    let sols = solve("AAAA", &words(&["AA", "AAAA"])).unwrap();
    assert_eq!(sols, vec![words(&["AA", "AA"]), words(&["AAAA"])]);
}

#[test]
fn join_words_uses_single_spaces() {
    assert_eq!(join_words(&words(&[])), "");
    assert_eq!(join_words(&words(&["A"])), "A");
    assert_eq!(join_words(&words(&["AB", "C", "D"])), "AB C D");
}
