use std::collections::BTreeSet;
use stroki::{
    add_usize_i32, fill_similar_strings, get_key_number, get_unique_key, match_similar_strings,
    pipeline, pipeline_with_table, string_to_array, try_alphabetical_sort, try_get_unique_key,
    EntrySet, TextCounts,
};

fn entry(k: &str, t: &str) -> (String, String) {
    (k.to_string(), t.to_string())
}

fn strings(v: &[&str]) -> Vec<String> {
    v.iter().map(|s| s.to_string()).collect()
}

#[test]
fn paragraphs_are_cut_at_blank_lines() {
    assert_eq!(string_to_array("a\n\nb"), strings(&["a", "b"]));
    assert_eq!(string_to_array("a\n\n\nb"), strings(&["a", "\nb"]));
    assert_eq!(string_to_array("a\nb"), strings(&["a\nb"]));
    assert_eq!(string_to_array(""), strings(&[""]));
    assert_eq!(string_to_array("\n\n"), strings(&["", ""]));
    assert_eq!(string_to_array("x\n\n\n\ny"), strings(&["x", "", "y"]));
}

#[test]
fn paragraphs_join_back_into_the_text() {
    for text in ["a\n\n\nb\n\nc", "", "\n", "\n\n\n", "one\n\ntwo\n\n"] {
        assert_eq!(string_to_array(text).join("\n\n"), text);
    }
}

#[test]
fn key_numbers_are_read_after_the_last_colon() {
    assert_eq!(get_key_number("mow:12"), Some(12));
    assert_eq!(get_key_number("a:b:007"), Some(7));
    assert_eq!(get_key_number("x:+5"), Some(5));
    assert_eq!(get_key_number("42"), Some(42));
    assert_eq!(get_key_number("x:"), None);
    assert_eq!(get_key_number("x:+"), None);
    assert_eq!(get_key_number("x:-1"), None);
    assert_eq!(get_key_number("a"), None);
    assert_eq!(get_key_number(&format!("p:q:{}", usize::MAX)), Some(usize::MAX));
    assert_eq!(get_key_number(&format!("::{}", 90210)), Some(90210));
    assert_eq!(get_key_number("x:1a"), None);
    assert_eq!(get_key_number("x:99999999999999999999999"), None);
    assert_eq!(
        get_key_number(&format!("x:{}", usize::MAX)),
        Some(usize::MAX)
    );
}

#[test]
fn offsets_move_numbers_within_range() {
    assert_eq!(add_usize_i32(5, 3), Some(8));
    assert_eq!(add_usize_i32(5, -3), Some(2));
    assert_eq!(add_usize_i32(2, -3), None);
    assert_eq!(add_usize_i32(usize::MAX, 1), None);
    assert_eq!(add_usize_i32(7, 0), Some(7));
    assert_eq!(add_usize_i32(1 << 40, i32::MIN), None);
    let big = usize::MAX - (i32::MAX as usize);
    assert_eq!(add_usize_i32(big, i32::MIN), Some(0));
}

#[test]
fn offsets_are_undone_by_their_opposite() {
    for (x, y) in [(10usize, 7i32), (10, -7), (0, 12345), (usize::MAX - 3, 2)] {
        let z = add_usize_i32(x, y).unwrap();
        assert_eq!(add_usize_i32(z, -y), Some(x));
    }
}

#[test]
fn unique_key_without_neighbours_is_a() {
    let mut v = vec![entry("", ""), entry("", "")];
    assert_eq!(get_unique_key(&mut v, 0, &BTreeSet::new()), "a");
    assert_eq!(v, vec![entry("", ""), entry("", "")]);
}

#[test]
fn unique_key_after_last_key_counts_up() {
    let mut v = vec![entry("p:07", "a"), entry("", "")];
    assert_eq!(get_unique_key(&mut v, 1, &BTreeSet::new()), "p:08");
    let mut w = vec![entry("p:09", "a"), entry("", "")];
    assert_eq!(get_unique_key(&mut w, 1, &BTreeSet::new()), "p:10");
}

#[test]
fn unique_key_before_first_key_repeats_it() {
    let mut v = vec![entry("", ""), entry("q:5", "b")];
    assert_eq!(get_unique_key(&mut v, 0, &BTreeSet::new()), "q:5");
}

#[test]
fn unique_key_between_keys_skips_known_numbers() {
    let mut v = vec![entry("x:1", "a"), entry("", ""), entry("x:5", "c")];
    assert_eq!(get_unique_key(&mut v, 1, &BTreeSet::from([2, 3])), "x:4");
    assert_eq!(get_unique_key(&mut v, 1, &BTreeSet::new()), "x:2");
}

#[test]
fn unique_key_between_close_keys_appends_a_digit() {
    let mut v = vec![entry("x:9", "a"), entry("", ""), entry("x:10", "c")];
    assert_eq!(get_unique_key(&mut v, 1, &BTreeSet::new()), "x:90");
    assert_eq!(get_unique_key(&mut v, 1, &BTreeSet::from([90, 91])), "x:92");
}

#[test]
fn unique_keys_read_back_as_numbers() {
    let mut v = vec![entry("doc:0041", "a"), entry("", "")];
    let k = get_unique_key(&mut v, 1, &BTreeSet::new());
    assert_eq!(k, "doc:0042");
    assert_eq!(get_key_number(&k), Some(42));
}

#[test]
fn entry_set_orders_and_removes_doubles() {
    let set = EntrySet::from_entries(&vec![
        entry("x:2", "b"),
        entry("x:1", "a"),
        entry("x:2", "b"),
        entry("x:10", "z"),
        entry("x:1", "0"),
    ]);
    assert_eq!(
        set.entries(),
        &vec![
            entry("x:1", "0"),
            entry("x:1", "a"),
            entry("x:10", "z"),
            entry("x:2", "b"),
        ]
    );
}

#[test]
fn text_counts_count_occurrences() {
    let counts = TextCounts::from_texts(&strings(&["a", "b", "a", "a"]));
    assert_eq!(counts.get("a"), Some(3));
    assert_eq!(counts.get("b"), Some(1));
    assert_eq!(counts.get("c"), None);
    let mut c = TextCounts::new();
    c.set("z", 4);
    c.set("z", 2);
    assert_eq!(c.get("z"), Some(2));
}

#[test]
fn matching_keeps_one_entry_per_text() {
    let mut set = EntrySet::from_entries(&vec![
        entry("x:1", "a"),
        entry("x:2", "b"),
        entry("x:3", "c"),
    ]);
    let texts = strings(&["a", "c", "b"]);
    let mut counts = TextCounts::from_texts(&texts);
    let table = vec![
        vec![true, false, false],
        vec![false, false, true],
        vec![false, true, false],
    ];
    let answer = match_similar_strings(&texts, &mut set, &mut counts, &table);
    assert_eq!(
        answer,
        vec![entry("x:1", "a"), entry("x:3", "c"), entry("x:2", "b")]
    );
    assert!(set.entries().is_empty());
    assert_eq!(counts.get("a"), Some(0));
}

#[test]
fn a_text_without_count_left_stays_blank() {
    let mut set = EntrySet::from_entries(&vec![entry("x:1", "a"), entry("x:2", "a")]);
    let texts = strings(&["a", "a", "b"]);
    let mut counts = TextCounts::new();
    counts.set("a", 1);
    let table = vec![vec![true, true], vec![true, true], vec![false, false]];
    let answer = match_similar_strings(&texts, &mut set, &mut counts, &table);
    assert_eq!(answer, vec![entry("x:1", "a"), entry("", ""), entry("", "")]);
    assert_eq!(set.entries(), &vec![entry("x:2", "a")]);
    assert_eq!(counts.get("a"), Some(0));
}

#[test]
fn matching_lowers_each_count_by_the_entries_its_text_took() {
    let mut set = EntrySet::from_entries(&vec![
        entry("k:1", "same"),
        entry("k:2", "same"),
        entry("k:3", "other"),
    ]);
    let texts = strings(&["same", "new", "same"]);
    let mut counts = TextCounts::from_texts(&texts);
    let table = vec![
        vec![true, true, false],
        vec![false, false, false],
        vec![true, true, false],
    ];
    let answer = match_similar_strings(&texts, &mut set, &mut counts, &table);
    assert_eq!(
        answer,
        vec![entry("k:1", "same"), entry("", ""), entry("k:2", "same")]
    );
    assert_eq!(set.entries(), &vec![entry("k:3", "other")]);
    assert_eq!(counts.get("same"), Some(0));
    assert_eq!(counts.get("new"), Some(1));
}

#[test]
fn filling_answers_with_the_entries_no_text_took() {
    let mut set = EntrySet::from_entries(&vec![entry("x:1", "a"), entry("x:2", "a")]);
    let texts = strings(&["a", "a", "b"]);
    let mut counts = TextCounts::new();
    counts.set("a", 1);
    let table = vec![vec![true, true], vec![true, true], vec![false, false]];
    let left = fill_similar_strings(&texts, &mut set, &mut counts, &table);
    assert_eq!(left, vec![entry("x:2", "a")]);
    assert_eq!(set.entries(), &vec![entry("x:2", "a")]);
    assert_eq!(counts.get("a"), Some(0));
}

#[test]
fn checked_key_search_reports_when_no_key_can_be_found() {
    let entries = vec![entry("x:1", "a"), entry("", "")];
    assert_eq!(
        try_get_unique_key(&entries, 1, &BTreeSet::new()),
        Some("x:2".to_string())
    );
    let unnumbered = vec![entry("", ""), entry("abc", "b")];
    assert_eq!(try_get_unique_key(&unnumbered, 0, &BTreeSet::new()), None);
}

#[test]
fn checked_sort_reports_when_a_key_cannot_be_renumbered() {
    let mut ok = vec![entry("x:1", "a"), entry("x:3", "c"), entry("x:2", "b")];
    assert!(try_alphabetical_sort(&mut ok, &BTreeSet::from([1, 2, 3])));
    assert_eq!(ok, vec![entry("x:1", "a"), entry("x:10", "c"), entry("x:2", "b")]);
    let mut bad = vec![entry("b", "t"), entry("a", "u")];
    assert!(!try_alphabetical_sort(&mut bad, &BTreeSet::new()));
    assert_eq!(bad.len(), 2);
}

#[test]
fn pipeline_keeps_old_keys_and_adds_new_ones() {
    let old = vec![entry("mow:0", "initial")];
    let (answer, unused) =
        pipeline(old, vec![], "initial\n\nnew para", |a: &str, b: &str| a == b).unwrap();
    assert_eq!(
        answer,
        vec![entry("mow:0", "initial"), entry("mow:1", "new para")]
    );
    assert!(unused.is_empty());
}

#[test]
fn pipeline_lists_keys_of_removed_paragraphs() {
    let old = vec![entry("mow:0", "first"), entry("mow:1", "second")];
    let used = strings(&["mow:7"]);
    let (answer, unused) = pipeline(old, used, "first", |a: &str, b: &str| a == b).unwrap();
    assert_eq!(answer, vec![entry("mow:0", "first")]);
    assert_eq!(unused, strings(&["mow:1", "mow:7"]));
}

#[test]
fn pipeline_inserts_between_old_keys() {
    let old = vec![entry("s:1", "one"), entry("s:2", "two")];
    let (answer, unused) = pipeline(old, vec![], "one\n\nnew\n\ntwo", |a: &str, b: &str| {
        a == b
    })
    .unwrap();
    assert_eq!(
        answer,
        vec![entry("s:1", "one"), entry("s:10", "new"), entry("s:2", "two")]
    );
    assert!(unused.is_empty());
}

#[test]
fn pipeline_with_table_matches_by_table() {
    let old = vec![entry("k:3", "old text")];
    let table = vec![vec![false], vec![true]];
    let (answer, unused) =
        pipeline_with_table(old, vec![], "fresh\n\nedited text", &table).unwrap();
    assert_eq!(answer, vec![entry("k:3", "fresh"), entry("k:4", "edited text")]);
    assert!(unused.is_empty());
}

#[test]
fn pipeline_fails_when_a_new_key_has_no_number() {
    assert_eq!(
        pipeline(vec![], vec![], "p\n\nq", |a: &str, b: &str| a == b),
        None
    );
}

#[test]
fn pipeline_gives_a_single_new_paragraph_key_a() {
    let (answer, unused) = pipeline(vec![], vec![], "only", |a: &str, b: &str| a == b).unwrap();
    assert_eq!(answer, vec![entry("a", "only")]);
    assert!(unused.is_empty());
}

const WORDS: [&str; 9] = [
    "Blala", "Bol bol", "Balaba", "Kalaba", "Ka", "Raba", "Dabara", "Taba", "Mutaba",
];

fn line(seed: usize) -> String {
    (0..12)
        .map(|j| WORDS[(seed * 7 + j * 5 + j * j) % WORDS.len()])
        .collect::<Vec<_>>()
        .join(" ")
}

fn jaro_like(a: &str, b: &str) -> bool {
    a == b
}

#[test]
fn repeated_insert_and_remove_keeps_the_first_key() {
    let mut state = vec![entry("mow:0", "initial")];
    let mut keys: Vec<String> = vec![];
    let mut parts = vec!["initial".to_string()];
    for round in 0..200 {
        parts.insert(1, line(round));
        let (s, k) = pipeline(state, keys, &parts.join("\n\n"), jaro_like).unwrap();
        assert_eq!(s.len(), 2);
        assert_eq!(s[0], entry("mow:0", "initial"));
        assert_eq!(s[1].1, parts[1]);
        parts.remove(1);
        let (s, k) = pipeline(s, k, &parts.join("\n\n"), jaro_like).unwrap();
        assert_eq!(s, vec![entry("mow:0", "initial")]);
        assert_eq!(k.len(), round + 1);
        state = s;
        keys = k;
    }
}

#[test]
fn unchanged_text_gives_the_same_keys_back() {
    let old = vec![entry("p:1", "one"), entry("p:2", "two"), entry("p:30", "three")];
    let used = strings(&["p:7"]);
    let (s, k) = pipeline(old.clone(), used.clone(), "one\n\ntwo\n\nthree", jaro_like).unwrap();
    assert_eq!(s, old);
    assert_eq!(k, used);
}

fn jaro_similar(a: &str, b: &str) -> bool {
    strsim::jaro(a, b) > 0.8
}

#[test]
fn mixed_inserts_and_deletions_keep_every_paragraph() {
    let mut state = vec![entry("mow:0", "initial")];
    let mut keys: Vec<String> = vec![];
    let mut parts = vec!["initial".to_string()];
    let mut seed: usize = 12345;
    for step in 0..100 {
        seed = (seed * 1103515245 + 12345) % 2147483648;
        match seed % 5 {
            0 | 1 => {
                let index = (seed / 5) % (parts.len() + 1);
                parts.insert(index, line(step + seed % 97));
            }
            2 | 3 => {
                if parts.len() > 2 {
                    let index = (seed / 5) % parts.len();
                    parts.remove(index);
                }
            }
            _ => {}
        }
        let (s, k) = pipeline(state, keys, &parts.join("\n\n"), jaro_similar).unwrap();
        assert_eq!(s.len(), parts.len());
        for (i, p) in parts.iter().enumerate() {
            assert_eq!(&s[i].1, p);
            assert!(!s[i].0.is_empty());
        }
        state = s;
        keys = k;
    }
}
