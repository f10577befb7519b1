use blip::blob::Blob;
use blip::commit::Commit;
use blip::entries::Entry;
use blip::error::Error;
use blip::file_service::{join, DirProbe, FileService};
use blip::index::Index;

const H1: &str = "aaf4c61ddcc5e8a2dabede0f3b482cd9aea9434d";
const H2: &str = "7c211433f02071597741e6ff5a8ea34789abbf43";

fn pairs(entries: &Vec<Entry>) -> Vec<(String, String)> {
    entries.iter().map(|e| (e.hash.clone(), e.path.clone())).collect()
}

fn pair(hash: &str, path: &str) -> (String, String) {
    (hash.to_string(), path.to_string())
}

fn probe(dir: &str, has_marker: bool) -> DirProbe {
    DirProbe { dir: dir.to_string(), has_marker }
}

#[test]
fn join_puts_a_separator_where_needed() {
    assert_eq!(join("a", "b"), "a/b");
    assert_eq!(join("a/", "b"), "a/b");
    assert_eq!(join("/", "b"), "/b");
    assert_eq!(join("", "b"), "b");
    assert_eq!(join("a", ""), "a/");
    assert_eq!(join("/home/me", ".blip"), "/home/me/.blip");
    assert_eq!(join("a/b", "c/d"), "a/b/c/d");
}

#[test]
fn join_lets_a_rooted_name_stand() {
    assert_eq!(join("a", "/b"), "/b");
    assert_eq!(join("/x/y", "/"), "/");
}

#[test]
fn join_agrees_with_std_paths() {
    for base in ["", "a", "a/", "/", "/a/b", "rel/dir/"] {
        for name in ["b", "b/c", ".blip", "/abs", "refs/heads/master"] {
            let expected = std::path::Path::new(base).join(name);
            assert_eq!(join(base, name), expected.to_str().unwrap(), "{:?} {:?}", base, name);
        }
    }
}

#[test]
fn at_lays_out_the_repository() {
    let service = FileService::at("/home/me/project".to_string());
    assert_eq!(service.root_dir, "/home/me/project");
    assert_eq!(service.blip_dir, "/home/me/project/.blip");
    assert_eq!(service.object_dir, "/home/me/project/.blip/objects");
    assert_eq!(service.index, "/home/me/project/.blip/index");
    assert_eq!(service.head, "/home/me/project/.blip/HEAD");
}

#[test]
fn find_root_takes_the_nearest_repository() {
    let probes = vec![
        probe("/a/b/c", false),
        probe("/a/b", true),
        probe("/a", true),
        probe("/", false),
    ];
    assert_eq!(FileService::find_root(&probes).unwrap(), "/a/b");
    let service = FileService::new(&probes).unwrap();
    assert_eq!(service.root_dir, "/a/b");
    assert_eq!(service.index, "/a/b/.blip/index");
}

#[test]
fn find_root_may_be_the_working_directory() {
    let probes = vec![probe("/a/b", true), probe("/a", false), probe("/", false)];
    assert_eq!(FileService::find_root(&probes).unwrap(), "/a/b");
}

#[test]
fn find_root_fails_at_the_root() {
    let probes = vec![probe("/a/b", false), probe("/a", false), probe("/", false)];
    assert!(matches!(FileService::find_root(&probes), Err(Error::NoDirectory)));
    assert!(matches!(FileService::new(&probes), Err(Error::NoDirectory)));
    assert!(matches!(FileService::new(&Vec::new()), Err(Error::NoDirectory)));
}

#[test]
fn init_makes_the_skeleton() {
    let plan = FileService::init_blip("/work/repo");
    assert_eq!(plan.dirs, vec!["/work/repo/.blip/objects", "/work/repo/.blip/refs/heads"]);
    assert_eq!(plan.files.len(), 2);
    assert_eq!(plan.files[0].path, "/work/repo/.blip/index");
    assert!(plan.files[0].data.is_empty());
    assert_eq!(plan.files[1].path, "/work/repo/.blip/HEAD");
    assert_eq!(plan.files[1].data, b"ref: refs/heads/master".to_vec());
}

#[test]
fn init_makes_no_branch_file() {
    let plan = FileService::init_blip("repo");
    assert!(plan.files.iter().all(|f| !f.path.contains("refs")));
}

#[test]
fn fresh_head_points_to_master() {
    let plan = FileService::init_blip("/work/repo");
    let service = FileService::at("/work/repo".to_string());
    assert_eq!(plan.files[1].path, service.head);
    assert_eq!(plan.files[0].path, service.index);
    let head = String::from_utf8(plan.files[1].data.clone()).unwrap();
    assert_eq!(service.get_head_ref(&head).unwrap(), "/work/repo/.blip/refs/heads/master");
}

#[test]
fn head_ref_is_what_follows_the_prefix() {
    let service = FileService::at("r".to_string());
    assert_eq!(service.get_head_ref("ref: refs/heads/dev").unwrap(), "r/.blip/refs/heads/dev");
    assert_eq!(service.get_head_ref("ref: ").unwrap(), "r/.blip/");
}

#[test]
fn head_without_prefix_is_refused() {
    let service = FileService::at("r".to_string());
    for head in ["", "ref:", "refs/heads/master", "REF: refs/heads/master", " ref: x", "ref:x"] {
        let result = service.get_head_ref(head);
        assert!(matches!(result, Err(Error::InvalidObjectStore)), "for {:?}", head);
    }
}

#[test]
fn object_path_is_under_objects() {
    let service = FileService::at("/r".to_string());
    assert_eq!(service.object_path(H1), format!("/r/.blip/objects/{}", H1));
}

#[test]
fn write_blob_names_the_file_by_the_hash() {
    let service = FileService::at("/r".to_string());
    let file = service.write_blob(&Blob::new(b"hello".to_vec()));
    assert_eq!(file.path, format!("/r/.blip/objects/{}", H1));
    assert_eq!(file.data, b"hello".to_vec());
}

#[test]
fn write_obj_keeps_the_bytes() {
    let service = FileService::at("/r".to_string());
    let file = service.write_obj("name", &vec![0u8, 1, 255]);
    assert_eq!(file.path, "/r/.blip/objects/name");
    assert_eq!(file.data, vec![0u8, 1, 255]);
}

#[test]
fn read_commit_reads_the_object() {
    let service = FileService::at("/r".to_string());
    let object = format!("parent {}\nblob {}, a.txt\n", H2, H1).into_bytes();
    let commit = service.read_commit("name", &object).unwrap();
    assert_eq!(commit.hash(), Some(&"name".to_string()));
    assert_eq!(commit.parent(), Some(&H2.to_string()));
    assert_eq!(pairs(commit.files()), vec![pair(H1, "a.txt")]);
}

#[test]
fn read_commit_refuses_bad_objects() {
    let service = FileService::at("/r".to_string());
    let not_text = vec![b'b', b'l', 0xff, 0xfe];
    assert!(matches!(service.read_commit("n", &not_text), Err(Error::InvalidObjectStore)));
    assert!(matches!(service.read_commit("n", b"parent zz\n"), Err(Error::InvalidObjectStore)));
}

#[test]
fn read_index_reads_the_file() {
    let service = FileService::at("/r".to_string());
    let index = service.read_index(format!("{} a.txt\n", H1).as_bytes()).unwrap();
    assert_eq!(index.path(), "/r/.blip/index");
    assert_eq!(pairs(index.hashtree()), vec![pair(H1, "a.txt")]);
    assert!(service.read_index(b"").unwrap().hashtree().is_empty());
}

#[test]
fn read_index_refuses_bad_files() {
    let service = FileService::at("/r".to_string());
    assert!(matches!(service.read_index(b"one-token\n"), Err(Error::InvalidIndex)));
    assert!(matches!(service.read_index(&[0xc0, b' ', b'x']), Err(Error::InvalidIndex)));
}

#[test]
fn written_index_file_reads_back_the_same() {
    let service = FileService::at("/r".to_string());
    let mut index = Index::new(service.index.clone());
    index.update("a.txt", H1);
    index.update("dir/ünï.txt", H2);
    let file = service.write_index(&index);
    assert_eq!(file.path, "/r/.blip/index");
    let again = service.read_index(&file.data).unwrap();
    assert_eq!(pairs(again.hashtree()), pairs(index.hashtree()));
    assert_eq!(service.write_index(&again).data, file.data);
}

#[test]
fn write_commit_gives_object_and_branch_file() {
    let service = FileService::at("/r".to_string());
    let mut index = Index::new(service.index.clone());
    index.update("a.txt", H1);
    let mut commit = Commit::new(None);
    commit.add_from_index(&index);
    let writes = service.write_commit(&mut commit, "ref: refs/heads/master").unwrap();
    let name = "a30c9f77a53a584cd6f5c7d992f4a4c1ed60421f";
    assert_eq!(commit.hash(), Some(&name.to_string()));
    assert_eq!(writes.object.path, format!("/r/.blip/objects/{}", name));
    assert_eq!(writes.object.data, format!("blob {}, a.txt\n", H1).into_bytes());
    assert_eq!(writes.reference.path, "/r/.blip/refs/heads/master");
    assert_eq!(writes.reference.data, name.as_bytes().to_vec());
}

#[test]
fn write_commit_refuses_an_empty_commit() {
    let service = FileService::at("/r".to_string());
    let mut commit = Commit::new(None);
    let result = service.write_commit(&mut commit, "ref: refs/heads/master");
    assert!(matches!(result, Err(Error::EmptyCommit)));
    assert_eq!(commit.hash(), None);
    assert_eq!(commit.data(), None);
    let mut read_back = Commit::from("name", "").unwrap();
    let result = service.write_commit(&mut read_back, "ref: refs/heads/master");
    assert!(matches!(result, Err(Error::EmptyCommit)));
}

#[test]
fn write_commit_refuses_a_head_that_points_nowhere() {
    let service = FileService::at("/r".to_string());
    let mut commit = Commit::from("name", &format!("blob {}, a.txt\n", H1)).unwrap();
    let result = service.write_commit(&mut commit, "refs/heads/master");
    assert!(matches!(result, Err(Error::InvalidObjectStore)));
    let mut empty = Commit::new(None);
    let result = service.write_commit(&mut empty, "refs/heads/master");
    assert!(matches!(result, Err(Error::EmptyCommit)));
}

#[test]
fn written_commit_object_reads_back_the_same() {
    let service = FileService::at("/r".to_string());
    let parent = service.read_commit(H2, format!("blob {}, a.txt\n", H1).as_bytes()).unwrap();
    let mut index = Index::new(service.index.clone());
    index.update("b.txt", H2);
    let mut commit = Commit::new(Some(&parent));
    commit.add_from_index(&index);
    let writes = service.write_commit(&mut commit, "ref: refs/heads/master").unwrap();
    let again = service.read_commit(commit.hash().unwrap(), &writes.object.data).unwrap();
    assert_eq!(pairs(again.files()), pairs(commit.files()));
    assert_eq!(again.parent(), Some(&H2.to_string()));
    assert_eq!(again.hash(), commit.hash());
}

#[test]
fn branch_without_file_has_no_commit() {
    assert!(matches!(FileService::get_hash_from_ref(None), Ok(None)));
}

#[test]
fn branch_file_holds_the_hash() {
    let hash = FileService::get_hash_from_ref(Some(H1.as_bytes())).unwrap();
    assert_eq!(hash, Some(H1.to_string()));
    let with_line_feed = format!("{}\n", H1);
    let hash = FileService::get_hash_from_ref(Some(with_line_feed.as_bytes())).unwrap();
    assert_eq!(hash, Some(with_line_feed));
    let empty = FileService::get_hash_from_ref(Some(b"")).unwrap();
    assert_eq!(empty, Some(String::new()));
    let wide = FileService::get_hash_from_ref(Some("é✓".as_bytes())).unwrap();
    assert_eq!(wide, Some("é✓".to_string()));
}

#[test]
fn branch_file_that_is_not_text_is_refused() {
    for bytes in [&[0xffu8][..], &[b'a', 0xc3][..], &[0xed, 0xa0, 0x80][..]] {
        let result = FileService::get_hash_from_ref(Some(bytes));
        assert!(matches!(result, Err(Error::InvalidObjectStore)), "for {:?}", bytes);
    }
}
