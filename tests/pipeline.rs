use disjoint_words::charset::{build_charset, is_disjoint};
use disjoint_words::entry::{generate_list_of_characters, CharsetEntry};
use disjoint_words::pipeline::{
    disjoint_words_for_state, find_disjoint_words, find_unique_disjoint_pairs,
    find_unique_disjoints, is_unique_disjoint, merge_disjoints, same_text, text_lt, Pair,
};

fn chars(s: &str) -> Vec<char> {
    s.chars().collect()
}

fn result_lines(states_text: &str, words_text: &str) -> Vec<String> {
    let states = generate_list_of_characters(states_text);
    let words = generate_list_of_characters(words_text);
    find_unique_disjoint_pairs(&states, &words)
        .iter()
        .map(|p| {
            format!(
                "{} => {}",
                states[p.state].original_text(),
                words[p.word].original_text()
            )
        })
        .collect()
}

#[test]
fn disjoint_sorted_sequences() {
    assert!(is_disjoint(&chars("abc"), &chars("def")));
    assert!(is_disjoint(&chars("aceg"), &chars("bdfh")));
    assert!(!is_disjoint(&chars("abc"), &chars("cde")));
    assert!(!is_disjoint(&chars("aceg"), &chars("bdeh")));
    assert!(!is_disjoint(&chars("z"), &chars("abyz")));
}

#[test]
fn disjoint_is_symmetric() {
    let cases = ["", "a", "abc", "bdf", "cxz", "aaz"];
    for a in cases.iter() {
        for b in cases.iter() {
            assert_eq!(is_disjoint(&chars(a), &chars(b)), is_disjoint(&chars(b), &chars(a)));
        }
    }
}

#[test]
fn disjoint_with_empty() {
    assert!(is_disjoint(&chars("abc"), &[]));
    assert!(is_disjoint(&[], &chars("abc")));
    assert!(is_disjoint(&[], &[]));
    assert!(is_disjoint(&chars("zya"), &[]));
    assert!(is_disjoint(&[], &chars("cba")));
}

#[test]
fn charset_dedups_sorts_and_drops_spaces() {
    assert_eq!(build_charset(&chars("hello world")), chars("dehlorw"));
    assert_eq!(build_charset(&chars("  ")), Vec::<char>::new());
    assert_eq!(build_charset(&chars("New York")), chars("NYekorw"));
}

#[test]
fn charset_is_a_fixed_point() {
    for line in ["hello world", "Mississippi", "", "zyx abc zyx"].iter() {
        let once = build_charset(&chars(line));
        let twice = build_charset(&once);
        assert_eq!(once, twice);
    }
}

#[test]
fn lines_are_split_and_kept() {
    let entries = generate_list_of_characters("abc\r\ndef\n\nx y");
    let texts: Vec<String> = entries.iter().map(|e| e.original_text()).collect();
    assert_eq!(texts, vec!["abc", "def", "", "x y"]);
    assert_eq!(entries[0].chars, chars("abc"));
    assert!(entries[2].chars.is_empty());
    assert_eq!(entries[3].chars, chars("xy"));
}

#[test]
fn trailing_line_feed_adds_no_line() {
    assert_eq!(generate_list_of_characters("ab\ncd\n").len(), 2);
    assert_eq!(generate_list_of_characters("").len(), 0);
    assert_eq!(generate_list_of_characters("\n").len(), 1);
}

#[test]
fn entry_keeps_its_text() {
    let e = CharsetEntry::new(chars("cab cab"));
    assert_eq!(e.original_text(), "cab cab");
    assert_eq!(e.chars, chars("abc"));
}

#[test]
fn end_to_end_example() {
    let states = generate_list_of_characters("abc\ndef");
    let words = generate_list_of_characters("xyz\nabx");
    let candidates = find_disjoint_words(&states, &words);
    assert_eq!(
        candidates,
        vec![
            Pair { state: 0, word: 0 },
            Pair { state: 1, word: 0 },
            Pair { state: 1, word: 1 },
        ]
    );
    let unique = find_unique_disjoints(&states, &words, &candidates);
    assert_eq!(unique, vec![Pair { state: 1, word: 1 }]);
    assert_eq!(result_lines("abc\ndef", "xyz\nabx"), vec!["def => abx"]);
}

#[test]
fn per_state_and_per_pair_steps() {
    let states = generate_list_of_characters("abc\ndef");
    let words = generate_list_of_characters("xyz\nabx");
    assert_eq!(disjoint_words_for_state(&states, &words, 0), vec![Pair { state: 0, word: 0 }]);
    assert_eq!(
        disjoint_words_for_state(&states, &words, 1),
        vec![Pair { state: 1, word: 0 }, Pair { state: 1, word: 1 }]
    );
    assert!(!is_unique_disjoint(&states, &words, Pair { state: 1, word: 0 }));
    assert!(is_unique_disjoint(&states, &words, Pair { state: 1, word: 1 }));
}

#[test]
fn permuted_inputs_give_the_same_output() {
    let expected = result_lines("abc\ndef\nmno", "xyz\nabx\nqrs p");
    assert_eq!(result_lines("mno\ndef\nabc", "xyz\nabx\nqrs p"), expected);
    assert_eq!(result_lines("abc\ndef\nmno", "qrs p\nabx\nxyz"), expected);
    assert_eq!(result_lines("def\nmno\nabc", "abx\nqrs p\nxyz"), expected);
}

#[test]
fn duplicate_states_drop_no_pair() {
    let states = generate_list_of_characters("def\nabc\ndef");
    let words = generate_list_of_characters("abx");
    let r = find_unique_disjoint_pairs(&states, &words);
    assert_eq!(r, vec![Pair { state: 0, word: 0 }, Pair { state: 2, word: 0 }]);
    assert_eq!(result_lines("def\nabc\ndef", "abx"), vec!["def => abx", "def => abx"]);
}

#[test]
fn merge_orders_by_state_text() {
    let states = generate_list_of_characters("ohio\nalabama\nutah\nalaska");
    let pairs = vec![
        Pair { state: 2, word: 0 },
        Pair { state: 0, word: 5 },
        Pair { state: 3, word: 1 },
        Pair { state: 1, word: 4 },
        Pair { state: 0, word: 2 },
    ];
    let r = merge_disjoints(&states, &pairs);
    assert_eq!(
        r,
        vec![
            Pair { state: 1, word: 4 },
            Pair { state: 3, word: 1 },
            Pair { state: 0, word: 5 },
            Pair { state: 0, word: 2 },
            Pair { state: 2, word: 0 },
        ]
    );
    assert!(merge_disjoints(&states, &[]).is_empty());
}

#[test]
fn merge_keeps_arrival_order_among_equal_texts() {
    let states = generate_list_of_characters("def
abc
def");
    let pairs = vec![
        Pair { state: 2, word: 0 },
        Pair { state: 1, word: 3 },
        Pair { state: 0, word: 0 },
        Pair { state: 2, word: 1 },
    ];
    assert_eq!(
        merge_disjoints(&states, &pairs),
        vec![
            Pair { state: 1, word: 3 },
            Pair { state: 2, word: 0 },
            Pair { state: 0, word: 0 },
            Pair { state: 2, word: 1 },
        ]
    );
}

#[test]
fn text_comparisons() {
    assert!(text_lt(&chars("abc"), &chars("abd")));
    assert!(text_lt(&chars("ab"), &chars("abc")));
    assert!(!text_lt(&chars("abc"), &chars("ab")));
    assert!(!text_lt(&chars("abc"), &chars("abc")));
    assert!(text_lt(&chars("Zed"), &chars("apple")));
    assert!(same_text(&chars("abc"), &chars("abc")));
    assert!(!same_text(&chars("abc"), &chars("abd")));
    assert!(!same_text(&chars("abc"), &chars("ab")));
}

#[test]
fn words_with_many_states() {
    let lines = result_lines("ab\ncd\nef", "cdef\nabef\nabcd\nxyz\nabcdef");
    assert_eq!(lines, vec!["ab => cdef", "cd => abef", "ef => abcd"]);
}

#[test]
fn lines_of_one_state_follow_word_order() {
    assert_eq!(result_lines("def\nab", "abq\nabx"), vec!["def => abq", "def => abx"]);
    assert_eq!(result_lines("def\nab", "abx\nabq"), vec!["def => abx", "def => abq"]);
}
