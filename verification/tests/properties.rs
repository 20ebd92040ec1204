use trie::Sorted;
use trie::Trie;

// The sorting helper orders owned and borrowed string collections alike and
// keeps duplicates.
#[test]
fn sorted_helper() {
    let unsorted = vec!["pear", "apple", "pea", "apple"];
    assert_eq!(unsorted.sorted(), vec!["apple", "apple", "pea", "pear"]);
    let owned: Vec<String> = vec!["b".to_string(), "a".to_string(), "ab".to_string()];
    assert_eq!(
        owned.sorted(),
        vec!["a".to_string(), "ab".to_string(), "b".to_string()]
    );
    let empty: Vec<&str> = Vec::new();
    assert_eq!(empty.sorted(), Vec::<&str>::new());
}

// Every string is contained right after it was inserted.
#[test]
fn insert_establishes_membership() {
    let mut trie = Trie::new();
    for w in ["a", "ab", "abc", "zebra", "z"] {
        trie.insert(w);
        assert!(trie.contains(w));
    }
}

// After insert then remove, the string is gone, and every other stored
// string keeps its membership - also when it is a prefix or an extension of
// the removed one.
#[test]
fn insert_then_remove_membership() {
    let mut trie = Trie::new();
    trie.insert("car");
    trie.insert("cart");
    trie.insert("ca");
    trie.insert("dog");
    trie.insert("carts");
    trie.remove("cart");
    assert!(!trie.contains("cart"));
    assert!(trie.contains("car"));
    assert!(trie.contains("ca"));
    assert!(trie.contains("dog"));
    assert!(trie.contains("carts"));
}

// Inserting a string twice leaves the same observable state as inserting it
// once: same memberships, same search results.
#[test]
fn insert_idempotent() {
    let mut once = Trie::new();
    once.insert("hello");
    once.insert("help");

    let mut twice = Trie::new();
    twice.insert("hello");
    twice.insert("help");
    twice.insert("hello");

    for w in ["hello", "help", "hel", "helloo", ""] {
        assert_eq!(once.contains(w), twice.contains(w));
    }
    assert_eq!(once.search("he"), twice.search("he"));
    assert_eq!(once.search(""), twice.search(""));
}

// All three traversal strategies return the same results, for every prefix
// tried and for several populations.
#[test]
fn search_variants_agree() {
    let populations: [&[&str]; 3] = [
        &[],
        &["hello", "hell", "help", "world", "hellish"],
        &["", "a", "ab", "abc", "b", "ba"],
    ];
    for words in populations {
        let mut trie = Trie::new();
        for w in words {
            trie.insert(w);
        }
        for prefix in ["", "h", "he", "hell", "hello", "a", "ab", "x", "worlds"] {
            let owned = trie.search(prefix);
            let rec: Vec<String> = trie.search_rec(prefix).into_iter().cloned().collect();
            let rec2: Vec<String> = trie.search_rec2(prefix).into_iter().cloned().collect();
            assert_eq!(owned, rec);
            assert_eq!(owned, rec2);
        }
    }
}

// The sorted search output is exactly the lexicographically ordered,
// deduplicated list of the stored strings with the given prefix.
#[test]
fn search_output_sorted_and_exact() {
    let mut trie = Trie::new();
    for w in ["pear", "apple", "peach", "apricot", "pea", "apple", "banana"] {
        trie.insert(w);
    }
    assert_eq!(
        trie.search(""),
        vec!["apple", "apricot", "banana", "pea", "peach", "pear"]
    );
    assert_eq!(trie.search("ap"), vec!["apple", "apricot"]);
    assert_eq!(trie.search("pea"), vec!["pea", "peach", "pear"]);
    assert_eq!(trie.search("pead"), Vec::<String>::new());
}

// Removing a never-inserted string changes no membership.
#[test]
fn remove_absent_is_noop() {
    let mut trie = Trie::new();
    trie.insert("alpha");
    trie.insert("beta");
    trie.remove("gamma");
    trie.remove("alp");
    trie.remove("alphas");
    assert!(trie.contains("alpha"));
    assert!(trie.contains("beta"));
    assert!(!trie.contains("gamma"));
    assert!(!trie.contains("alp"));
    assert!(!trie.contains("alphas"));
    assert_eq!(trie.search(""), vec!["alpha", "beta"]);
}

// The empty string is a storable member: inserting it marks the root, and
// it shows up in searches for the empty prefix.
#[test]
fn empty_string_boundary() {
    let mut trie = Trie::new();
    assert!(!trie.contains(""));
    trie.insert("");
    assert!(trie.contains(""));
    trie.insert("a");
    assert_eq!(trie.search(""), vec!["", "a"]);
    assert_eq!(
        trie.search_rec(""),
        vec![&String::new(), &String::from("a")]
    );
    assert_eq!(
        trie.search_rec2(""),
        vec![&String::new(), &String::from("a")]
    );
    trie.remove("");
    assert!(!trie.contains(""));
    assert!(trie.contains("a"));
}

// A search for a prefix deeper than any stored string is empty, and a
// search never invents strings that were not inserted.
#[test]
fn search_misses() {
    let mut trie = Trie::new();
    trie.insert("hi");
    assert_eq!(trie.search("hia"), Vec::<String>::new());
    assert_eq!(trie.search("x"), Vec::<String>::new());
    assert_eq!(trie.search("h"), vec!["hi"]);
}
