use core::str;
use radix_sort::Word;
use radix_sort::counting::counting_pass;
use radix_sort::insertion;
use radix_sort::lsd::{Lsd, SortError, lsd_sort};
use radix_sort::msd::{Msd, msd_sort, msd_sort_with_cutoff};
use radix_sort::tokenize::tokenize;

fn word(s: &str) -> Word {
    Word::new(s.as_bytes().to_vec())
}

fn strings(words: &Vec<Word>) -> Vec<String> {
    words.iter().map(|w| String::from_utf8(w.bytes().clone()).expect("Bad output")).collect()
}

#[test]
fn test() {
    let input = String::from(
        r#"4PGC938
2IYE230
3CIO720
1ICK750
1OHV845
4JZY524
1ICK750
3CIO720
1OHV845
1OHV845
2RLA629
2RLA629
3ATW723"#,
    );
    let sortable_data = Lsd::new(&input, 7).unwrap();
    sortable_data.words.iter().for_each(|x| {
        let s = str::from_utf8(&x.bytes()[..]).expect("Bad output");
        println!("{}", s);
    });
}

#[test]
fn lib_test() {
    let input = String::from(
        r#"she
sells
seashells
by
the
sea
shore
the
shells
she
sells
are
surely
seashells"#,
    );
    let sortable_data = Msd::new(&input);
    sortable_data.words.iter().for_each(|x| {
        let s = str::from_utf8(&x.bytes()[..]).expect("Bad output");
        println!("{}", s);
    });
}

#[test]
fn lsd_fixed_width_cars() {
    let input = "4PGC938 2IYE230 3CIO720 1ICK750 1OHV845 4JZY524 1ICK750 3CIO720 1OHV845 1OHV845 2RLA629 2RLA629 3ATW723";
    let sorted = Lsd::new(input, 7).unwrap();
    let expected = vec![
        "1ICK750", "1ICK750", "1OHV845", "1OHV845", "1OHV845", "2IYE230", "2RLA629", "2RLA629",
        "3ATW723", "3CIO720", "3CIO720", "4JZY524", "4PGC938",
    ];
    assert_eq!(strings(&sorted.words), expected);
}

#[test]
fn msd_variable_length_seashells() {
    let input = "she sells seashells by the sea shore the shells she sells are surely seashells";
    let sorted = Msd::new(input);
    let expected = vec![
        "are", "by", "sea", "seashells", "seashells", "sells", "sells", "she", "she", "shells",
        "shore", "surely", "the", "the",
    ];
    assert_eq!(strings(&sorted.words), expected);
}

#[test]
fn counting_pass_is_stable() {
    // Words sharing the byte at the examined digit keep their input order.
    let mut words = vec![word("bx"), word("ba"), word("ax"), word("bz"), word("aa")];
    let n = words.len();
    let bounds = counting_pass(&mut words, 0, n, 0);
    assert_eq!(strings(&words), vec!["ax", "aa", "bx", "ba", "bz"]);
    assert_eq!(bounds.len(), 258);
    assert_eq!(bounds[0], 0);
    assert_eq!(bounds[257], n);
}

#[test]
fn counting_pass_sentinel_sorts_first() {
    // A word that ends before the digit goes to the sentinel bucket, ahead
    // of every word that continues.
    let mut words = vec![word("ab"), word("a"), word("aa")];
    let n = words.len();
    counting_pass(&mut words, 0, n, 1);
    assert_eq!(strings(&words), vec!["a", "aa", "ab"]);
}

#[test]
fn msd_cutoff_paths_agree() {
    // The same input through different cutoffs, including one that hands
    // everything to insertion sort at once, gives identical output.
    let inputs: Vec<Vec<&str>> = vec![
        vec![],
        vec!["z"],
        vec!["b", "a"],
        vec!["the", "the", "th", "t", ""],
        vec!["ba", "ab", "bb", "aa", "ab", "ba"],
        vec!["sea", "seashells", "sells", "sea", "she", "s"],
    ];
    for input in inputs {
        let mk = || input.iter().map(|s| word(s)).collect::<Vec<Word>>();
        let out1 = msd_sort_with_cutoff(mk(), 0);
        let out2 = msd_sort_with_cutoff(mk(), 1);
        let out3 = msd_sort_with_cutoff(mk(), 4);
        let out4 = msd_sort_with_cutoff(mk(), 100);
        assert_eq!(strings(&out1), strings(&out2));
        assert_eq!(strings(&out2), strings(&out3));
        assert_eq!(strings(&out3), strings(&out4));
    }
}

#[test]
fn empty_and_singleton() {
    let empty = msd_sort(Vec::new());
    assert_eq!(empty.len(), 0);
    let one = msd_sort(vec![word("only")]);
    assert_eq!(strings(&one), vec!["only"]);
    let empty_lsd = lsd_sort(Vec::new(), 5).unwrap();
    assert_eq!(empty_lsd.len(), 0);
    let one_lsd = lsd_sort(vec![word("only")], 4).unwrap();
    assert_eq!(strings(&one_lsd), vec!["only"]);
}

#[test]
fn sorting_is_idempotent() {
    let input = vec!["she", "sells", "sea", "she", "by"];
    let once = msd_sort(input.iter().map(|s| word(s)).collect());
    let twice = msd_sort(once.iter().map(|w| Word::new(w.bytes().clone())).collect());
    assert_eq!(strings(&once), strings(&twice));
}

#[test]
fn output_is_permutation_of_input() {
    let input = vec!["pear", "apple", "fig", "apple", "date", "fig", "fig"];
    let out = msd_sort(input.iter().map(|s| word(s)).collect());
    let mut got = strings(&out);
    let mut want: Vec<String> = input.iter().map(|s| s.to_string()).collect();
    got.sort();
    want.sort();
    assert_eq!(got, want);
}

#[test]
fn adjacent_pairs_are_ordered() {
    let input = "zeta alpha mu mu alphabet al z zz a";
    let sorted = Msd::new(input);
    let out = strings(&sorted.words);
    for pair in out.windows(2) {
        assert!(pair[0] <= pair[1]);
    }
    // The shorter word comes first on an equal prefix.
    assert_eq!(out, vec!["a", "al", "alpha", "alphabet", "mu", "mu", "z", "zeta", "zz"]);
}

#[test]
fn lsd_word_too_short() {
    let r = lsd_sort(vec![word("abcd"), word("ab")], 3);
    assert_eq!(r.unwrap_err(), SortError::WordTooShort);
    let r2 = Lsd::new("abc a", 2);
    assert_eq!(r2.unwrap_err(), SortError::WordTooShort);
}

#[test]
fn lsd_ignores_bytes_past_width_stably() {
    // Only the first two bytes are sorted on; ties keep their input order.
    let r = lsd_sort(vec![word("abZ"), word("aaQ"), word("abA")], 2).unwrap();
    assert_eq!(strings(&r), vec!["aaQ", "abZ", "abA"]);
}

#[test]
fn lsd_with_words_and_sort() {
    let mut store = Lsd::with_words(vec![word("dab"), word("cab"), word("bab")]);
    assert_eq!(strings(&store.words), vec!["dab", "cab", "bab"]);
    store.sort(3).unwrap();
    assert_eq!(strings(&store.words), vec!["bab", "cab", "dab"]);
}

#[test]
fn cutoff_paths_agree_at_positive_depth() {
    // A partition whose words share their first two bytes: handing it to
    // insertion sort at depth 2 and running the full radix path from the
    // start give the same order.
    let input = vec!["seashells", "sea", "sells", "seat", "sea", "se"];
    let mut by_insertion: Vec<Word> = input.iter().map(|s| word(s)).collect();
    let n = by_insertion.len();
    insertion::sort(&mut by_insertion, 0, n, 2);
    let by_radix = msd_sort(input.iter().map(|s| word(s)).collect());
    assert_eq!(strings(&by_insertion), strings(&by_radix));
}

#[test]
fn insertion_sort_range_from_depth() {
    let mut words = vec![word("xc"), word("xb"), word("xa"), word("zz")];
    insertion::sort(&mut words, 0, 3, 1);
    assert_eq!(strings(&words), vec!["xa", "xb", "xc", "zz"]);
}

#[test]
fn insertion_less_prefix_rule() {
    assert!(insertion::less(&word("sea"), &word("seashells"), 0));
    assert!(!insertion::less(&word("seashells"), &word("sea"), 0));
    assert!(!insertion::less(&word("sea"), &word("sea"), 0));
    // From a depth beyond both words, the shorter word is still the lesser.
    assert!(insertion::less(&word("ab"), &word("abc"), 5));
    assert!(!insertion::less(&word("abc"), &word("ab"), 5));
    assert!(!insertion::less(&word("ab"), &word("ab"), 5));
}

#[test]
fn word_construction() {
    let w = Word::new(vec![1, 2, 255]);
    assert_eq!(w.bytes(), &vec![1u8, 2, 255]);
    assert_eq!(w.len(), 3);
    assert_eq!(w.byte_at(2), 255);
    let f = Word::from_str("abc");
    assert_eq!(f.bytes(), &b"abc".to_vec());
}

#[test]
fn tokenize_on_ascii_whitespace() {
    let toks = tokenize(b"  one\ttwo\nthree  four \r\n");
    let out: Vec<String> = toks.iter().map(|w| {
        String::from_utf8(w.bytes().clone()).expect("Bad output")
    }).collect();
    assert_eq!(out, vec!["one", "two", "three", "four"]);
}

#[test]
fn msd_char_at() {
    let m = Msd::new("ab a");
    // Sorted order: "a", "ab".
    assert_eq!(m.char_at(0, 0), Some(97));
    assert_eq!(m.char_at(0, 1), None);
    assert_eq!(m.char_at(1, 1), Some(98));
}

#[test]
fn msd_sort_prefix_only() {
    let mut m = Msd { words: vec![word("c"), word("b"), word("a")] };
    m.sort(2);
    assert_eq!(strings(&m.words), vec!["b", "c", "a"]);
}

#[test]
fn bytes_sort_by_value_not_ascii_class() {
    let out = msd_sort(vec![word("\u{7f}"), word("!"), word("~"), word("0")]);
    assert_eq!(strings(&out), vec!["!", "0", "~", "\u{7f}"]);
}
