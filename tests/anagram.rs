use exercises::anagram::{are_anagrams, same_letters};

#[test]
fn test_anagram_1() {
    let s1 = "listen".to_string();
    let s2 = "silent".to_string();
    let result = are_anagrams(s1, s2);
    assert_eq!(result, true);
}

#[test]
fn test_anagram_2() {
    let s1 = "evil".to_string();
    let s2 = "vile".to_string();
    let result = are_anagrams(s1, s2);
    assert_eq!(result, true);
}

#[test]
fn test_anagram_3() {
    let s1 = "hello".to_string();
    let s2 = "world".to_string();
    let result = are_anagrams(s1, s2);
    assert_eq!(result, false);
}

#[test]
fn test_anagram_4() {
    let s1 = "Clint Eastwood".to_string();
    let s2 = "Old West Action".to_string();
    let result = are_anagrams(s1, s2);
    assert_eq!(result, true);
}

#[test]
fn test_anagram_5() {
    let s1 = "Astronomer".to_string();
    let s2 = "Moon starer".to_string();
    let result = are_anagrams(s1, s2);
    assert_eq!(result, true);
}

#[test]
fn anagram_ignores_case() {
    assert!(are_anagrams("Ab".to_string(), "bA".to_string()));
    assert!(are_anagrams("ABC".to_string(), "cab".to_string()));
}

#[test]
fn anagram_counts_repeats() {
    assert!(!are_anagrams("aab".to_string(), "abb".to_string()));
    assert!(!are_anagrams("ab".to_string(), "abc".to_string()));
    assert!(are_anagrams("".to_string(), "  ".to_string()));
}

#[test]
fn same_letters_keeps_case() {
    assert!(same_letters("a b", "ba"));
    assert!(!same_letters("Ab", "ab"));
}
