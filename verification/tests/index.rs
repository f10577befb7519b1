use blip::entries::{find_hash, find_path, Entry};
use blip::error::Error;
use blip::index::{read_index_line, Index};

const H1: &str = "aaf4c61ddcc5e8a2dabede0f3b482cd9aea9434d";
const H2: &str = "7c211433f02071597741e6ff5a8ea34789abbf43";

fn pairs(entries: &Vec<Entry>) -> Vec<(String, String)> {
    entries.iter().map(|e| (e.hash.clone(), e.path.clone())).collect()
}

fn pair(hash: &str, path: &str) -> (String, String) {
    (hash.to_string(), path.to_string())
}

#[test]
fn new_index_is_empty() {
    let index = Index::new("repo/.blip/index".to_string());
    assert!(index.hashtree().is_empty());
    assert_eq!(index.path(), "repo/.blip/index");
    assert_eq!(index.render(), "");
}

#[test]
fn index_line_has_exactly_two_tokens() {
    let entry = read_index_line("abc some/path").unwrap();
    assert_eq!(entry.hash, "abc");
    assert_eq!(entry.path, "some/path");
    assert!(read_index_line("abc").is_none());
    assert!(read_index_line("").is_none());
    assert!(read_index_line("a b c").is_none());
    assert!(read_index_line("a  b").is_none());
    assert!(read_index_line("a b ").is_none());
}

#[test]
fn index_line_tokens_part_at_any_whitespace() {
    for separator in ['\t', '\r', '\u{b}', '\u{c}', '\u{a0}', '\u{2003}', '\u{3000}'] {
        let entry = read_index_line(&format!("abc{}some/path", separator)).unwrap();
        assert_eq!(entry.hash, "abc");
        assert_eq!(entry.path, "some/path");
    }
}

#[test]
fn index_line_with_three_tokens_states_nothing() {
    assert!(read_index_line("a\tb c").is_none());
    assert!(read_index_line("a b\tc").is_none());
    assert!(read_index_line("a\tb\tc").is_none());
    assert!(read_index_line("a \tb").is_none());
    assert!(read_index_line("a b\r").is_none());
    assert!(read_index_line("a\u{a0}b c").is_none());
}

#[test]
fn index_line_tokens_may_be_empty() {
    let entry = read_index_line(" path").unwrap();
    assert_eq!((entry.hash.as_str(), entry.path.as_str()), ("", "path"));
    let entry = read_index_line("hash ").unwrap();
    assert_eq!((entry.hash.as_str(), entry.path.as_str()), ("hash", ""));
    let entry = read_index_line(" ").unwrap();
    assert_eq!((entry.hash.as_str(), entry.path.as_str()), ("", ""));
    let entry = read_index_line("\t").unwrap();
    assert_eq!((entry.hash.as_str(), entry.path.as_str()), ("", ""));
}

#[test]
fn index_line_agrees_with_std_on_tokens() {
    let samples = [
        "abc def", "abc\tdef", "abc", "", "a b c", "a\tb c", " a", "a ", "  ", "a\u{2003}b",
        "a\u{200b}b", "ünï cödé", "a\rb", "a b\r",
    ];
    for line in samples {
        let tokens: Vec<&str> = line.split(char::is_whitespace).collect();
        match read_index_line(line) {
            Some(entry) => {
                assert_eq!(tokens, vec![entry.hash.as_str(), entry.path.as_str()]);
            }
            None => assert_ne!(tokens.len(), 2, "for {:?}", line),
        }
    }
}

#[test]
fn parse_reads_each_line() {
    let text = format!("{} a.txt\n{} b.txt\n", H1, H2);
    let index = Index::parse("index".to_string(), &text).unwrap();
    assert_eq!(pairs(index.hashtree()), vec![pair(H2, "b.txt"), pair(H1, "a.txt")]);
    assert_eq!(index.path(), "index");
}

#[test]
fn parse_of_empty_text_is_empty_index() {
    let index = Index::parse("index".to_string(), "").unwrap();
    assert!(index.hashtree().is_empty());
}

#[test]
fn parse_refuses_a_line_without_two_tokens() {
    for text in [
        "onlyhash\n",
        "a b c\n",
        "\n",
        "aa one\n\nbb two\n",
        "aa one\nbb  two\n",
        "aa one\nbb \ttwo\n",
        "aa one\nbb two three\n",
        "aa\tone two\n",
        "aa one\nbad",
    ] {
        let result = Index::parse("index".to_string(), text);
        assert!(matches!(result, Err(Error::InvalidIndex)), "for {:?}", text);
    }
}

#[test]
fn parse_takes_any_whitespace_between_the_tokens() {
    let index = Index::parse("index".to_string(), "aa\tone\nbb\u{a0}two\n").unwrap();
    assert_eq!(pairs(index.hashtree()), vec![pair("aa", "one"), pair("bb", "two")]);
    assert_eq!(index.render(), "aa one\nbb two\n");
}

#[test]
fn parse_lets_a_later_line_win_for_a_path() {
    let index = Index::parse("index".to_string(), "aa p\nbb p\n").unwrap();
    assert_eq!(pairs(index.hashtree()), vec![pair("bb", "p")]);
    let index = Index::parse("index".to_string(), "bb p\naa p\n").unwrap();
    assert_eq!(pairs(index.hashtree()), vec![pair("aa", "p")]);
}

#[test]
fn parse_takes_windows_line_ends() {
    let index = Index::parse("index".to_string(), "aa one\r\nbb two\r\n").unwrap();
    assert_eq!(pairs(index.hashtree()), vec![pair("aa", "one"), pair("bb", "two")]);
}

#[test]
fn update_inserts_and_replaces() {
    let mut index = Index::new("index".to_string());
    index.update("a.txt", H1);
    assert_eq!(pairs(index.hashtree()), vec![pair(H1, "a.txt")]);
    index.update("b.txt", H2);
    assert_eq!(pairs(index.hashtree()), vec![pair(H2, "b.txt"), pair(H1, "a.txt")]);
    index.update("a.txt", H2);
    assert_eq!(pairs(index.hashtree()), vec![pair(H2, "a.txt"), pair(H2, "b.txt")]);
    index.update("a.txt", H2);
    assert_eq!(pairs(index.hashtree()), vec![pair(H2, "a.txt"), pair(H2, "b.txt")]);
    assert_eq!(index.path(), "index");
}

#[test]
fn update_keeps_one_hash_per_path() {
    let mut index = Index::new("index".to_string());
    for hash in ["c", "a", "b", "a", "d"] {
        index.update("same", hash);
    }
    assert_eq!(pairs(index.hashtree()), vec![pair("d", "same")]);
}

#[test]
fn render_writes_hash_then_path_in_order_of_hash() {
    let mut index = Index::new("index".to_string());
    index.update("z.txt", "bbb");
    index.update("a.txt", "ccc");
    index.update("m.txt", "aaa");
    index.update("b.txt", "bbb");
    assert_eq!(index.render(), "aaa m.txt\nbbb b.txt\nbbb z.txt\nccc a.txt\n");
}

#[test]
fn write_gives_the_file_of_the_index() {
    let mut index = Index::new("somewhere/index".to_string());
    index.update("a.txt", H1);
    let file = index.write();
    assert_eq!(file.path, "somewhere/index");
    assert_eq!(file.data, format!("{} a.txt\n", H1).into_bytes());
}

#[test]
fn clear_empties_the_index_and_its_file() {
    let mut index = Index::new("somewhere/index".to_string());
    index.update("a.txt", H1);
    index.update("b.txt", H2);
    let file = index.clear();
    assert!(index.hashtree().is_empty());
    assert_eq!(index.path(), "somewhere/index");
    assert_eq!(file.path, "somewhere/index");
    assert!(file.data.is_empty());
    assert_eq!(index.render(), "");
}

#[test]
fn written_index_reads_back_the_same() {
    let mut index = Index::new("index".to_string());
    index.update("src/main.rs", H1);
    index.update("README", H2);
    index.update("copy-of-README", H2);
    index.update("src/main.rs", "da39a3ee5e6b4b0d3255bfef95601890afd80709");
    let text = index.render();
    let again = Index::parse("index".to_string(), &text).unwrap();
    assert_eq!(pairs(again.hashtree()), pairs(index.hashtree()));
    assert_eq!(again.render(), text);
}

#[test]
fn read_index_written_in_another_order_is_the_same_mapping() {
    let forward = Index::parse("index".to_string(), "aa one\nbb two\ncc three\n").unwrap();
    let backward = Index::parse("index".to_string(), "cc three\nbb two\naa one\n").unwrap();
    assert_eq!(pairs(forward.hashtree()), pairs(backward.hashtree()));
    assert_eq!(backward.render(), "aa one\nbb two\ncc three\n");
}

#[test]
fn a_path_with_a_tab_does_not_read_back() {
    let mut index = Index::new("index".to_string());
    index.update("my\tfile.txt", H1);
    let text = index.render();
    assert!(matches!(Index::parse("index".to_string(), &text), Err(Error::InvalidIndex)));
}

#[test]
fn a_path_with_a_space_does_not_read_back() {
    let mut index = Index::new("index".to_string());
    index.update("my file.txt", H1);
    let text = index.render();
    assert!(matches!(Index::parse("index".to_string(), &text), Err(Error::InvalidIndex)));
}

#[test]
fn find_by_hash_and_by_path() {
    let mut index = Index::new("index".to_string());
    index.update("a.txt", H1);
    index.update("b.txt", H2);
    let entries = index.hashtree();
    assert_eq!(find_hash(entries, H2), Some(0));
    assert_eq!(find_hash(entries, H1), Some(1));
    assert_eq!(find_hash(entries, "none"), None);
    assert_eq!(find_path(entries, "a.txt"), Some(1));
    assert_eq!(find_path(entries, "b.txt"), Some(0));
    assert_eq!(find_path(entries, "c.txt"), None);
}
