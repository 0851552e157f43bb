use five_words::mask::word_mask;
use five_words::search::{filter_vec, find_all_solutions};
use five_words::solver::Solver;
use std::collections::BTreeSet;

fn words(list: &[&str]) -> Vec<String> {
    list.iter().map(|w| w.to_string()).collect()
}

fn run(list: &[&str]) -> Solver {
    let mut solver = Solver::default();
    solver.process_words(&words(list));
    solver.find_solutions();
    solver
}

fn as_sets(solutions: &[[u32; 5]]) -> BTreeSet<BTreeSet<u32>> {
    solutions.iter().map(|s| s.iter().copied().collect()).collect()
}

fn brute_force(masks: &[u32]) -> BTreeSet<BTreeSet<u32>> {
    let n = masks.len();
    let mut out = BTreeSet::new();
    for a in 0..n {
        for b in a + 1..n {
            for c in b + 1..n {
                for d in c + 1..n {
                    for e in d + 1..n {
                        let t = [masks[a], masks[b], masks[c], masks[d], masks[e]];
                        let mut ok = true;
                        for i in 0..5 {
                            for j in i + 1..5 {
                                if t[i] & t[j] != 0 {
                                    ok = false;
                                }
                            }
                        }
                        if ok {
                            out.insert(t.iter().copied().collect());
                        }
                    }
                }
            }
        }
    }
    out
}

#[test]
fn mask_of_first_letters() {
    assert_eq!(word_mask("abcde"), Some(0b11111));
    assert_eq!(word_mask("edcba"), Some(0b11111));
    assert_eq!(word_mask("fghij"), Some(0b11111 << 5));
    assert_eq!(word_mask("vwxyz"), Some(0b11111 << 21));
}

#[test]
fn mask_has_five_bits_for_letters_of_word() {
    let m = word_mask("quick").unwrap();
    assert_eq!(m.count_ones(), 5);
    for c in 'a'..='z' {
        let bit = 1u32 << (c as u32 - 'a' as u32);
        assert_eq!(m & bit != 0, "quick".contains(c));
    }
}

#[test]
fn rejects_repeated_letter_and_wrong_length() {
    assert_eq!(word_mask("hello"), None);
    assert_eq!(word_mask("aabcd"), None);
    assert_eq!(word_mask("cat"), None);
    assert_eq!(word_mask("abcdef"), None);
    assert_eq!(word_mask(""), None);
}

#[test]
fn rejects_non_lowercase_letters() {
    assert_eq!(word_mask("Abcde"), None);
    assert_eq!(word_mask("abc1e"), None);
    assert_eq!(word_mask("abcdé"), None);
}

#[test]
fn rejected_words_stay_out_of_list() {
    let solver = run(&["hello", "cat", "abcde"]);
    assert_eq!(solver.valid_masks(), &vec![0b11111]);
    assert!(word_mask("hello").is_none());
}

#[test]
fn filter_keeps_disjoint_tail() {
    let mut out = vec![99];
    filter_vec(&mut out, &vec![1, 2, 3, 4, 8], 1, 1);
    assert_eq!(out, vec![2, 4, 8]);
    filter_vec(&mut out, &vec![1, 2, 3, 4, 8], 6, 0);
    assert_eq!(out, vec![1, 8]);
    filter_vec(&mut out, &vec![1, 2], 0, 2);
    assert_eq!(out, Vec::<u32>::new());
}

#[test]
fn filter_past_end_is_empty() {
    let mut out = vec![5, 6];
    filter_vec(&mut out, &vec![1, 2, 4], 0, 7);
    assert_eq!(out, Vec::<u32>::new());
    filter_vec(&mut out, &vec![], 3, 0);
    assert_eq!(out, Vec::<u32>::new());
}

#[test]
fn list_is_sorted_and_deduplicated() {
    let solver = run(&["klmno", "abcde", "fghij", "edcba", "abcde"]);
    assert_eq!(
        solver.valid_masks(),
        &vec![0b11111, 0b11111 << 5, 0b11111 << 10]
    );
}

#[test]
fn anagram_keeps_last_word() {
    let solver = run(&["abcde", "fghij", "klmno", "pqrst", "uvwxy", "edcba"]);
    let got = solver.get_solutions();
    assert_eq!(got.len(), 1);
    assert!(got[0].contains(&"edcba".to_string()));
    assert!(!got[0].contains(&"abcde".to_string()));
}

#[test]
fn concrete_scenario_one_solution() {
    let solver = run(&["aabcd", "abcde", "fghij", "klmno", "pqrst", "uvwxy"]);
    assert_eq!(solver.valid_masks().len(), 5);
    let got = solver.get_solutions();
    assert_eq!(got.len(), 1);
    let found: BTreeSet<String> = got[0].iter().cloned().collect();
    let expected: BTreeSet<String> = words(&["abcde", "fghij", "klmno", "pqrst", "uvwxy"])
        .into_iter()
        .collect();
    assert_eq!(found, expected);
    assert_eq!(
        solver.solutions(),
        &vec![[0b11111, 0b11111 << 5, 0b11111 << 10, 0b11111 << 15, 0b11111 << 20]]
    );
}

#[test]
fn too_few_disjoint_words_give_no_solution() {
    let solver = run(&["abcde", "fghij", "klmno", "pqrst", "uvwxa", "bcdef"]);
    assert!(solver.get_solutions().is_empty());
    let empty = run(&[]);
    assert!(empty.get_solutions().is_empty());
    assert!(empty.valid_masks().is_empty());
}

const SYNTHETIC: [&str; 14] = [
    "abcde", "fghij", "klmno", "pqrst", "uvwxy", "bcdez", "fghiz", "vwxyz", "aklmn", "opqrs",
    "tuvwx", "yzabc", "defgh", "ijklm",
];

#[test]
fn matches_brute_force() {
    let solver = run(&SYNTHETIC);
    let masks = solver.valid_masks().clone();
    let expected = brute_force(&masks);
    assert!(!expected.is_empty());
    assert_eq!(as_sets(solver.solutions()), expected);
    assert_eq!(solver.solutions().len(), expected.len());
}

#[test]
fn solutions_are_pairwise_disjoint_and_unique() {
    let solver = run(&SYNTHETIC);
    let sols = solver.solutions();
    for s in sols.iter() {
        for i in 0..5 {
            for j in 0..5 {
                if i != j {
                    assert_eq!(s[i] & s[j], 0);
                }
            }
            if i > 0 {
                assert!(s[i - 1] < s[i]);
            }
        }
    }
    assert_eq!(as_sets(sols).len(), sols.len());
}

#[test]
fn running_twice_gives_same_solutions() {
    let a = run(&SYNTHETIC);
    let b = run(&SYNTHETIC);
    assert_eq!(as_sets(a.solutions()), as_sets(b.solutions()));
}

#[test]
fn search_on_mask_list_directly() {
    let list: Vec<u32> = vec![0b11, 0b100, 0b1000, 0b1100, 0b10000, 0b100000, 0b1000000];
    let got = find_all_solutions(&list);
    assert_eq!(as_sets(&got), brute_force(&list));
    assert_eq!(got.len(), 7);
    assert_eq!(got[0], [0b11, 0b100, 0b1000, 0b10000, 0b100000]);
    assert!(find_all_solutions(&vec![1, 2, 4, 8]).is_empty());
}

#[test]
fn processing_in_two_batches_merges() {
    let mut solver = Solver::default();
    solver.process_words(&words(&["pqrst", "abcde", "uvwxy"]));
    solver.process_words(&words(&["klmno", "fghij", "abcde"]));
    assert_eq!(solver.valid_masks().len(), 5);
    solver.find_solutions();
    assert_eq!(solver.get_solutions().len(), 1);
}
