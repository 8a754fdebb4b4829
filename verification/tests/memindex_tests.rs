use lib::doctable::DocTable;
use lib::memindex::MemIndex;
use lib::parser::parse_text;
use lib::search::{rank_documents, search, Rank, SearchIndex};

/// Builds an index the way crawling a folder of text files does.
fn index_of(docs: &[(&str, &str)]) -> MemIndex {
    let mut memindex = MemIndex::new();
    for (path, text) in docs {
        memindex.add_document(path.to_string(), text);
    }
    memindex
}

fn sorted_words(text: &str) -> Vec<(String, Vec<u64>)> {
    let mut entries = parse_text(text);
    entries.sort();
    entries
}

#[test]
pub fn generic() {
    let memindex = index_of(&[
        ("./text/a.txt", "hello world\nhello again"),
        ("./text/b.txt", "Hello, World! The world says hello."),
        ("./text/c.txt", "goodbye world"),
    ]);
    assert!(memindex.ids_valid());
    for (path, hits) in memindex.search(&vec!["hello", "world"]) {
        println!("{:?}, {}", path, hits);
    }
}

#[test]
fn parse_records_offsets_of_separator_before_word() {
    assert_eq!(
        sorted_words("hello world"),
        vec![("hello".to_string(), vec![0]), ("world".to_string(), vec![5])]
    );
    assert_eq!(
        sorted_words("the cat the"),
        vec![("cat".to_string(), vec![3]), ("the".to_string(), vec![0, 7])]
    );
}

#[test]
fn parse_leading_separators() {
    assert_eq!(sorted_words("  a"), vec![("a".to_string(), vec![1])]);
    assert_eq!(sorted_words(""), vec![]);
    assert_eq!(sorted_words(" \t\n"), vec![]);
}

#[test]
fn parse_drops_non_letters_and_lowercases() {
    // punctuation and digits vanish before offsets are counted
    assert_eq!(
        sorted_words("abc123 def"),
        vec![("abc".to_string(), vec![0]), ("def".to_string(), vec![3])]
    );
    assert_eq!(
        sorted_words("Hello, World!"),
        vec![("hello".to_string(), vec![0]), ("world".to_string(), vec![5])]
    );
    assert_eq!(sorted_words("a1b"), vec![("ab".to_string(), vec![0])]);
}

#[test]
fn parse_tabs_and_newlines_separate_words() {
    assert_eq!(
        sorted_words("one\ttwo\nthree"),
        vec![
            ("one".to_string(), vec![0]),
            ("three".to_string(), vec![7]),
            ("two".to_string(), vec![3]),
        ]
    );
}

#[test]
fn parse_unicode_letters() {
    assert_eq!(sorted_words("ÄPFEL äpfel"), vec![("äpfel".to_string(), vec![0, 5])]);
}

#[test]
fn doctable_numbers_documents_in_order() {
    let mut t = DocTable::new();
    assert_eq!(t.insert("a".to_string()), 0);
    assert_eq!(t.insert("b".to_string()), 1);
    assert_eq!(t.id(&"a".to_string()), Some(0));
    assert_eq!(t.id(&"b".to_string()), Some(1));
    assert_eq!(t.id(&"c".to_string()), None);
    assert_eq!(t.doc(0), Some(&"a".to_string()));
    assert_eq!(t.doc(1), Some(&"b".to_string()));
    assert_eq!(t.doc(2), None);
    assert_eq!(t.len(), 2);
}

#[test]
fn doctable_reinserted_path_maps_to_last_number() {
    let mut t = DocTable::new();
    t.insert("a".to_string());
    t.insert("b".to_string());
    assert_eq!(t.insert("a".to_string()), 2);
    assert_eq!(t.id(&"a".to_string()), Some(2));
    assert_eq!(t.doc(0), Some(&"a".to_string()));
}

#[test]
fn search_ranks_by_total_hits_ascending() {
    let memindex = index_of(&[
        ("a", "hello world hello"),
        ("b", "hello world"),
        ("c", "world only"),
    ]);
    let r = memindex.search(&vec!["hello", "world"]);
    assert_eq!(r, vec![("b".to_string(), 2), ("a".to_string(), 3)]);
    let r = memindex.search(&vec!["world"]);
    assert_eq!(r.len(), 3);
    assert!(r.iter().all(|(_, h)| *h == 1));
}

#[test]
fn search_unknown_word_and_empty_query() {
    let memindex = index_of(&[("a", "hello world")]);
    assert_eq!(memindex.search(&vec!["hello", "missing"]), vec![]);
    assert_eq!(memindex.search(&vec![]), vec![]);
}

#[test]
fn added_document_is_found_by_its_words() {
    let mut memindex = index_of(&[("a", "alpha beta")]);
    let id = memindex.add_document("b".to_string(), "beta gamma beta");
    assert_eq!(id, 1);
    assert_eq!(memindex.num_docs(), 2);
    assert_eq!(memindex.search(&vec!["gamma"]), vec![("b".to_string(), 1)]);
    assert_eq!(memindex.search(&vec!["beta", "gamma"]), vec![("b".to_string(), 3)]);
    assert_eq!(memindex.search(&vec!["beta"]), vec![("a".to_string(), 1), ("b".to_string(), 2)]);
}

#[test]
fn insert_replaces_positions_of_word_in_document() {
    let mut memindex = MemIndex::new();
    memindex.add_document("a".to_string(), "");
    memindex.insert(0, "x".to_string(), vec![1, 2, 3]);
    assert_eq!(memindex.search(&vec!["x"]), vec![("a".to_string(), 3)]);
    memindex.insert(0, "x".to_string(), vec![4]);
    assert_eq!(memindex.search(&vec!["x"]), vec![("a".to_string(), 1)]);
}

#[test]
fn can_answer_only_queries_whose_matches_are_named() {
    let mut memindex = index_of(&[("a", "x y")]);
    memindex.insert(5, "x".to_string(), vec![0]);
    assert!(!memindex.can_answer(&vec!["x"]));
    assert!(memindex.can_answer(&vec!["y"]));
    assert!(memindex.can_answer(&vec!["x", "y"]));
    assert!(memindex.can_answer(&vec!["z"]));
    assert_eq!(memindex.search(&vec!["x", "y"]), vec![("a".to_string(), 2)]);
}

#[test]
fn rank_query_gives_numbers_and_hits() {
    let memindex = index_of(&[("a", "p q p"), ("b", "p"), ("c", "q")]);
    assert_eq!(memindex.rank_query(&vec!["p"]), vec![(1, 1), (0, 2)]);
    assert_eq!(memindex.rank_query(&vec!["p", "q"]), vec![(0, 3)]);
    assert_eq!(memindex.rank_query(&vec![]), vec![]);
}

#[test]
fn ids_valid_detects_unknown_document() {
    let mut memindex = MemIndex::new();
    assert!(memindex.ids_valid());
    memindex.insert(5, "x".to_string(), vec![0]);
    assert!(!memindex.ids_valid());
}

#[test]
fn rank_documents_intersects_and_combines() {
    let lists: Vec<Vec<(u32, usize)>> = vec![
        vec![(1, 5), (2, 1), (3, 2)],
        vec![(3, 1), (1, 1), (4, 9)],
    ];
    assert_eq!(rank_documents(&lists), vec![(3, 3), (1, 6)]);
    let empty: Vec<Vec<(u32, usize)>> = vec![];
    assert_eq!(rank_documents(&empty), vec![]);
    // a document listed twice keeps the rank of its last pair
    let dup: Vec<Vec<(u32, usize)>> = vec![vec![(7, 4), (7, 2)]];
    assert_eq!(rank_documents(&dup), vec![(7, 2)]);
}

#[test]
fn search_calls_ranks_for_each_word() {
    let r = search(&vec!["a", "b"], |w: &str| {
        if w == "a" {
            vec![(1u32, 2usize), (2, 7)]
        } else {
            vec![(2u32, 1usize), (1, 1)]
        }
    });
    assert_eq!(r, vec![(1, 3), (2, 8)]);
}

#[test]
fn usize_rank_saturates_and_orders() {
    assert_eq!(3usize.combine(&4), 7);
    assert_eq!(usize::MAX.combine(&1), usize::MAX);
    assert!(1usize.precedes(&2));
    assert!(!2usize.precedes(&2));
}

fn word_ranks(w: &str) -> Vec<(u32, usize)> {
    match w {
        "a" => vec![(1, 2), (2, 7), (3, 1)],
        "b" => vec![(2, 1), (1, 1), (4, 4)],
        "c" => vec![(2, 5), (5, 1)],
        _ => vec![],
    }
}

fn docs_of(r: &[(u32, usize)]) -> Vec<u32> {
    let mut d: Vec<u32> = r.iter().map(|p| p.0).collect();
    d.sort();
    d
}

#[test]
fn generic_search_more_words_fewer_documents() {
    let one = search(&vec!["a"], word_ranks);
    let two = search(&vec!["a", "b"], word_ranks);
    let three = search(&vec!["a", "b", "c"], word_ranks);
    assert_eq!(docs_of(&one), vec![1, 2, 3]);
    assert_eq!(docs_of(&two), vec![1, 2]);
    assert_eq!(docs_of(&three), vec![2]);
    for d in docs_of(&three) {
        assert!(docs_of(&two).contains(&d));
    }
    for d in docs_of(&two) {
        assert!(docs_of(&one).contains(&d));
    }
}

#[test]
fn generic_search_query_order_irrelevant() {
    let abc = search(&vec!["a", "b", "c"], word_ranks);
    let cab = search(&vec!["c", "a", "b"], word_ranks);
    let bca = search(&vec!["b", "c", "a"], word_ranks);
    assert_eq!(abc, vec![(2, 13)]);
    assert_eq!(abc, cab);
    assert_eq!(abc, bca);
    let mut ab = search(&vec!["a", "b"], word_ranks);
    let mut ba = search(&vec!["b", "a"], word_ranks);
    ab.sort();
    ba.sort();
    assert_eq!(ab, vec![(1, 3), (2, 8)]);
    assert_eq!(ab, ba);
}

#[test]
fn memindex_query_order_irrelevant() {
    let memindex = index_of(&[("a", "x y x z"), ("b", "y x"), ("c", "z y z z")]);
    let mut xy = memindex.search(&vec!["x", "y"]);
    let mut yx = memindex.search(&vec!["y", "x"]);
    xy.sort();
    yx.sort();
    assert_eq!(xy, vec![("a".to_string(), 3), ("b".to_string(), 2)]);
    assert_eq!(xy, yx);
    assert_eq!(memindex.search(&vec!["z", "y", "x"]), memindex.search(&vec!["x", "z", "y"]));
    assert_eq!(memindex.search(&vec!["z", "y", "x"]), vec![("a".to_string(), 4)]);
}
