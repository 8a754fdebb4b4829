use lib::doctable::DocTable;
use lib::marshaller::{check_header, hash_id, hash_path, hash_str, little_endian, read_be8, write_hashtable, CANARY, CHECKSUM};
use std::collections::hash_map::DefaultHasher;
use std::hash::{Hash, Hasher};
use lib::memindex::MemIndex;
use lib::shell::{parse_command, split_words, Command};

fn be8(x: u64) -> Vec<u8> {
    x.to_be_bytes().to_vec()
}

fn word_at(b: &[u8], pos: usize) -> u64 {
    u64::from_be_bytes(b[pos..pos + 8].try_into().unwrap())
}

#[test]
fn read_be8_decodes_big_endian() {
    let b = [0u8, 0, 0, 0, 0xDE, 0xAD, 0xBE, 0xEF, 1];
    assert_eq!(read_be8(&b, 0), 0xDEADBEEF);
    assert_eq!(read_be8(&[1, 2, 3, 4, 5, 6, 7, 8], 0), 0x0102030405060708);
}

#[test]
fn header_check_accepts_only_canary_and_checksum() {
    let mut good = be8(CANARY);
    good.extend(be8(CHECKSUM));
    assert!(check_header(&good));
    good.push(7);
    assert!(check_header(&good));
    let mut swapped = be8(CHECKSUM);
    swapped.extend(be8(CANARY));
    assert!(!check_header(&swapped));
    assert!(!check_header(&good[..15]));
    assert!(!check_header(&[]));
}

#[test]
fn empty_index_file_layout() {
    let bytes = MemIndex::new().marshal().unwrap();
    let mut expected = be8(0xDEADBEEF);
    expected.extend(be8(0xCAFECAFE));
    // document table at 16: vector at 32, path map at 40, no documents
    expected.extend(be8(32));
    expected.extend(be8(40));
    expected.extend(be8(0));
    // empty path map: no buckets
    expected.extend(be8(0));
    // empty word index: no buckets
    expected.extend(be8(0));
    assert_eq!(bytes, expected);
    assert!(check_header(&bytes));
}

#[test]
fn one_document_index_file_layout() {
    let mut m = MemIndex::new();
    m.add_document("p".to_string(), "x");
    let b = m.marshal().unwrap();
    assert!(check_header(&b));
    assert_eq!(b.len(), 235);
    // document table
    assert_eq!(word_at(&b, 16), 32);
    assert_eq!(word_at(&b, 24), 57);
    assert_eq!(word_at(&b, 32), 1);
    assert_eq!(word_at(&b, 40), 48);
    assert_eq!(word_at(&b, 48), 1);
    assert_eq!(b[56], b'p');
    // path map at 57: one bucket at 81 holding one element at 89
    assert_eq!(word_at(&b, 57), 1);
    assert_eq!(word_at(&b, 65), 81);
    assert_eq!(word_at(&b, 73), 1);
    assert_eq!(word_at(&b, 81), 89);
    assert_eq!(word_at(&b, 89), 9);
    assert_eq!(word_at(&b, 97), 4);
    assert_eq!(word_at(&b, 105), 1);
    assert_eq!(b[113], b'p');
    assert_eq!(&b[114..118], &[0, 0, 0, 0]);
    // word index at 118: one bucket at 142, one element at 150
    assert_eq!(word_at(&b, 118), 1);
    assert_eq!(word_at(&b, 126), 142);
    assert_eq!(word_at(&b, 134), 1);
    assert_eq!(word_at(&b, 142), 150);
    assert_eq!(word_at(&b, 150), 9);
    assert_eq!(word_at(&b, 158), 60);
    assert_eq!(word_at(&b, 166), 1);
    assert_eq!(b[174], b'x');
    // the table of "x" at 175: document 0 at offset 0
    assert_eq!(word_at(&b, 175), 1);
    assert_eq!(word_at(&b, 183), 199);
    assert_eq!(word_at(&b, 191), 1);
    assert_eq!(word_at(&b, 199), 207);
    assert_eq!(word_at(&b, 207), 4);
    assert_eq!(word_at(&b, 215), 8);
    assert_eq!(&b[223..227], &[0, 0, 0, 0]);
    assert_eq!(word_at(&b, 227), 0);
}

#[test]
fn hashtable_places_elements_by_hash() {
    let keys: Vec<Vec<u8>> = vec![b"a".to_vec(), b"bb".to_vec(), b"c".to_vec()];
    let vals: Vec<Vec<u8>> = vec![vec![1], vec![], vec![2, 3]];
    let hashes: Vec<u64> = ["a", "bb", "c"].iter().map(|k| hash_str(k)).collect();
    let nb = 2usize;
    let mut out = vec![9u8, 9];
    let n = write_hashtable(&mut out, 100, nb, &hashes, &keys, &vals).unwrap();
    assert_eq!(out.len() as u64, 2 + n);
    let t = &out[2..];
    assert_eq!(word_at(t, 0), 2);
    // bucket records
    let b0 = word_at(t, 8);
    let c0 = word_at(t, 16);
    let b1 = word_at(t, 24);
    let c1 = word_at(t, 32);
    assert_eq!(b0, 100 + 40);
    assert_eq!(c0 + c1, 3);
    let in_bucket = |i: usize| (hashes[i] as usize) % nb;
    let count0 = (0..3).filter(|&i| in_bucket(i) == 0).count() as u64;
    assert_eq!(c0, count0);
    // every element offset points at an element whose key is in that bucket
    for (start, count, bucket) in [(b0, c0, 0usize), (b1, c1, 1usize)] {
        let mut prev: Option<usize> = None;
        for j in 0..count {
            let e = word_at(t, (start - 100 + 8 * j) as usize) - 100;
            let kl = word_at(t, e as usize) as usize;
            let vl = word_at(t, e as usize + 8) as usize;
            let key = &t[e as usize + 16..e as usize + 16 + kl];
            let i = keys.iter().position(|k| k == key).unwrap();
            assert_eq!(in_bucket(i), bucket);
            assert_eq!(&t[e as usize + 16 + kl..e as usize + 16 + kl + vl], vals[i].as_slice());
            if let Some(p) = prev {
                assert!(p < i);
            }
            prev = Some(i);
        }
    }
    assert_eq!(n as usize, t.len());
}

#[test]
fn hashtable_rejects_positions_beyond_a_word() {
    let mut out = Vec::new();
    assert_eq!(write_hashtable(&mut out, u64::MAX - 4, 0, &vec![], &vec![], &vec![]), None);
    assert!(out.is_empty());
}

#[test]
fn doctable_section_writes_paths_and_last_numbers() {
    let mut t = DocTable::new();
    t.insert("ab".to_string());
    t.insert("ab".to_string());
    let mut file = vec![0u8; 10];
    let n = t.write_to_file(&mut file).unwrap();
    assert_eq!(file.len() as u64, 10 + n);
    assert_eq!(word_at(&file, 10), 26);
    assert_eq!(word_at(&file, 26), 2);
    let d0 = word_at(&file, 34) as usize;
    let d1 = word_at(&file, 42) as usize;
    assert_eq!(d0, 50);
    assert_eq!(d1, 60);
    assert_eq!(word_at(&file, d0), 2);
    assert_eq!(&file[d0 + 8..d0 + 10], b"ab");
    let map = word_at(&file, 18) as usize;
    assert_eq!(map, 70);
    // one entry: "ab" with its last number, 1
    assert_eq!(word_at(&file, map), 1);
    assert_eq!(&file[file.len() - 4..], &[0, 0, 0, 1]);
}

#[test]
fn shell_quit_and_queries() {
    assert!(matches!(parse_command("quit()\n"), Command::Quit));
    assert!(matches!(parse_command("QUIT()  \n"), Command::Quit));
    match parse_command("  Hello   World\tagain\n") {
        Command::Query(words) => assert_eq!(words, vec!["hello", "world", "again"]),
        Command::Quit => panic!("not a quit"),
    }
    match parse_command("quit() now") {
        Command::Query(words) => assert_eq!(words, vec!["quit()", "now"]),
        Command::Quit => panic!("not a quit"),
    }
    match parse_command("\n") {
        Command::Query(words) => assert!(words.is_empty()),
        Command::Quit => panic!("not a quit"),
    }
}

#[test]
fn split_words_at_ascii_whitespace() {
    let chars: Vec<char> = "a\x0Cb\rc  d".chars().collect();
    assert_eq!(split_words(&chars), vec!["a", "b", "c", "d"]);
    let chars: Vec<char> = "  ".chars().collect();
    assert!(split_words(&chars).is_empty());
}

fn std_hash<T: Hash + ?Sized>(x: &T) -> u64 {
    let mut h = DefaultHasher::new();
    x.hash(&mut h);
    h.finish()
}

#[test]
fn string_keys_hash_as_std_hashes_strings() {
    for w in ["", "a", "hello", "ünïcødé", "quit()"] {
        assert_eq!(hash_str(w), std_hash(w));
        assert_eq!(hash_str(w), std_hash(&w.to_string()));
    }
    assert_ne!(hash_str("a"), hash_str("b"));
}

#[test]
fn document_numbers_hash_as_std_hashes_u32() {
    let little = little_endian();
    assert_eq!(little, 1u32.to_ne_bytes()[0] == 1);
    for d in [0u32, 1, 7, 0x01020304, u32::MAX] {
        assert_eq!(hash_id(d, little), std_hash(&d));
    }
    assert_ne!(hash_id(0x01020304, true), hash_id(0x01020304, false));
}

#[test]
fn path_keys_hash_as_std_hashes_paths() {
    for p in ["", "a", "./text/a.txt", "text//b.txt", "/x/./y"] {
        assert_eq!(hash_path(p), std_hash(std::path::Path::new(p)));
        assert_eq!(hash_path(p), std_hash(&std::path::PathBuf::from(p)));
    }
    assert_ne!(hash_path("./text/a.txt"), hash_path("./text/b.txt"));
}

/// The bucket and chain position of each key of the hash table at `map`.
fn buckets_of(file: &[u8], map: usize) -> Vec<Vec<String>> {
    let nb = word_at(file, map) as usize;
    let mut out = Vec::new();
    for b in 0..nb {
        let start = word_at(file, map + 8 + 16 * b) as usize;
        let count = word_at(file, map + 16 + 16 * b) as usize;
        let mut chain = Vec::new();
        for j in 0..count {
            let e = word_at(file, start + 8 * j) as usize;
            let kl = word_at(file, e) as usize;
            chain.push(std::str::from_utf8(&file[e + 16 + 8..e + 16 + kl]).unwrap().to_string());
        }
        out.push(chain);
    }
    out
}

#[test]
fn path_map_buckets_follow_path_hashes() {
    let mut t = DocTable::new();
    let paths = ["./text/a.txt", "./text/b.txt", "./text/c.txt"];
    for p in paths {
        t.insert(p.to_string());
    }
    let mut file = Vec::new();
    t.write_to_file(&mut file).unwrap();
    let map = word_at(&file, 8) as usize;
    let buckets = buckets_of(&file, map);
    assert_eq!(buckets.len(), 3);
    for (b, chain) in buckets.iter().enumerate() {
        for key in chain {
            assert_eq!((std_hash(std::path::Path::new(key)) as usize) % 3, b);
        }
    }
    assert_eq!(buckets.iter().map(|c| c.len()).sum::<usize>(), 3);
}

#[test]
fn path_map_places_paths_by_given_hashes() {
    let mut t = DocTable::new();
    for p in ["p0", "p1", "p0", "p2"] {
        t.insert(p.to_string());
    }
    // entries: p1 (number 1), p0 (number 2), p2 (number 3), three buckets
    let mut file = Vec::new();
    let hashes: Vec<u64> = vec![7, 5, 4, 3];
    t.write_with_path_hashes(&mut file, &hashes).unwrap();
    let map = word_at(&file, 8) as usize;
    let buckets = buckets_of(&file, map);
    assert_eq!(buckets, vec![vec!["p2".to_string()], vec!["p0".to_string()], vec!["p1".to_string()]]);
    let mut other = Vec::new();
    assert_eq!(t.write_with_path_hashes(&mut other, &vec![0, 0, 0, 0]).unwrap() as usize, other.len());
    assert_eq!(buckets_of(&other, map), vec![vec!["p1".to_string(), "p0".to_string(), "p2".to_string()], vec![], vec![]]);
}
