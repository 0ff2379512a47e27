use release_utils::checksums::AcceptAll;
use release_utils::checksums::Checksum;
use release_utils::checksums::ChecksumsToFile;
use release_utils::checksums::FsEntry;
use release_utils::checksums::FsTree;
use release_utils::checksums::Manifest;
use release_utils::checksums::PathChecksum;
use release_utils::checksums::PathPredicate;
use release_utils::checksums::RejectAll;
use release_utils::checksums::RejectName;
use release_utils::checksums::insert_entry;
use release_utils::checksums::join_path;
use release_utils::checksums::strfilename;

const EMPTY_SHA256: &str = "e3b0c44298fc1c149afbf4c8996fb92427ae41e4649b934ca495991b7852b855";
const A_SHA256: &str = "559aead08264d5795d3909718cdd05abd49572e84fe55590eef31a88a08fdffd";
const B_SHA256: &str = "df7e70e5021544f4834bbee64a9e3789febc4be81470df629cad6ddb03320a5c";

fn file(content: &str) -> FsTree {
    FsTree::File(content.as_bytes().to_vec())
}

fn dir(entries: Vec<(&str, FsTree)>) -> FsTree {
    let mut v: Vec<FsEntry> = Vec::new();
    for (name, node) in entries {
        insert_entry(&mut v, FsEntry { name: name.to_string(), node });
    }
    FsTree::Dir(v)
}

#[test]
fn file_digest_matches_known_hash() {
    let t = file("A");
    let c = t.calculate_sha256("/work/a");
    assert_eq!(c.get(), A_SHA256);
    assert_eq!(c.string(), A_SHA256.to_string());
    assert_eq!(c.get().len(), 64);
}

#[test]
fn file_digest_ignores_predicate() {
    let t = file("A");
    let c = t.calculate_sha256_filtered("/work/a", &RejectAll);
    assert_eq!(c.get(), A_SHA256);
}

#[test]
fn empty_directory_digest_is_hash_of_empty_string() {
    let t = dir(vec![]);
    let c = t.calculate_sha256("/work");
    assert_eq!(c.get(), EMPTY_SHA256);
}

#[test]
fn reject_everything_digest_is_hash_of_empty_string() {
    let t = dir(vec![("a", file("A")), ("b", file("B"))]);
    let c = t.calculate_sha256_filtered("/work", &RejectAll);
    assert_eq!(c.get(), EMPTY_SHA256);
}

#[test]
fn two_file_composition() {
    let t = dir(vec![("a", file("A")), ("b", file("B"))]);
    let c = t.calculate_sha256("/work");
    // sha256 of the concatenation of the two hex file digests
    assert_eq!(
        c.get(),
        "b30ab174f7459cdd40a3acdf15d0c9444fec2adcfb9d579aa154c084885edd0a"
    );
}

#[test]
fn filter_exclusion_matches_directory_without_the_file() {
    let both = dir(vec![("a", file("A")), ("b", file("B"))]);
    let only_a = dir(vec![("a", file("A"))]);
    let filtered = both.calculate_sha256_filtered("/work", &RejectName("b".to_string()));
    let reference = only_a.calculate_sha256("/work");
    assert_eq!(filtered.get(), reference.get());
    assert_eq!(
        filtered.get(),
        "599d48457e4996df84cbfeb973cd109827c0de9fa211c0d062eab13584ea6bb8"
    );
}

#[test]
fn rejecting_a_directory_does_not_prune_it() {
    let t = dir(vec![("sub", dir(vec![("f", file("inner"))]))]);
    let rejected = t.calculate_sha256_filtered("/work", &RejectName("sub".to_string()));
    let accepted = t.calculate_sha256("/work");
    assert_eq!(rejected.get(), accepted.get());
    assert_eq!(
        rejected.get(),
        "abcba81447bd6f196b362cdb722417d2109828256bc0446a416702dc536fd774"
    );
}

#[test]
fn digest_does_not_depend_on_insertion_order() {
    let forward = dir(vec![("a", file("A")), ("b", file("B"))]);
    let backward = dir(vec![("b", file("B")), ("a", file("A"))]);
    assert_eq!(
        forward.calculate_sha256("/work"),
        backward.calculate_sha256("/work")
    );
}

#[test]
fn inserting_the_same_name_twice_replaces_the_child() {
    let once = dir(vec![("a", file("B"))]);
    let twice = dir(vec![("a", file("A")), ("a", file("B"))]);
    assert_eq!(
        once.calculate_sha256("/work").get(),
        twice.calculate_sha256("/work").get()
    );
}

#[test]
fn manifest_fans_out_one_level() {
    let t = dir(vec![
        ("x", file("xdata")),
        ("y", dir(vec![("f", file("inner"))])),
    ]);
    let m = t.calculate_entries_sha256("/work");
    assert_eq!(m.len(), 2);
    assert_eq!(m.name_at(0), "x".to_string());
    assert_eq!(m.name_at(1), "y".to_string());
    assert_eq!(
        m.checksum_at(0).get(),
        "f7f2889a6186f9c583c98c4157925cdb59d53ce79ebcdffb770a9f95ec2e25ef"
    );
    assert_eq!(
        m.checksum_at(1).get(),
        "abcba81447bd6f196b362cdb722417d2109828256bc0446a416702dc536fd774"
    );
    let x = m.get("x").expect("x is a key");
    assert_eq!(x.get(), m.checksum_at(0).get());
    assert!(m.get("z").is_none());
}

#[test]
fn manifest_of_a_file_has_one_entry_keyed_by_base_name() {
    let t = file("A");
    let m = t.calculate_entries_sha256("some/dir/hello.bin");
    assert_eq!(m.len(), 1);
    assert_eq!(m.name_at(0), "hello.bin".to_string());
    assert_eq!(m.checksum_at(0).get(), A_SHA256);
}

#[test]
fn manifest_of_a_nameless_path_uses_the_fallback_name() {
    let t = file("A");
    let m = t.calculate_entries_sha256("/");
    assert_eq!(m.len(), 1);
    assert_eq!(m.name_at(0), "unknown".to_string());
}

#[test]
fn rendered_manifest_is_one_line_per_entry() {
    let t = dir(vec![("a", file("A")), ("b", file("B"))]);
    let m = t.calculate_entries_sha256("/work");
    let text = m.checksum_file_content();
    let expected = format!("a {}\nb {}\n", A_SHA256, B_SHA256);
    assert_eq!(text, expected);
}

#[test]
fn persistence_round_trip_recovers_the_same_pairs() {
    let t = dir(vec![("beta", file("B")), ("alpha", file("A"))]);
    let m = t.calculate_entries_sha256("/work");
    let text = m.checksum_file_content();

    let mut written: Vec<(String, String)> = Vec::new();
    for i in 0..m.len() {
        written.push((m.name_at(i), m.checksum_at(i).string()));
    }

    let mut recovered: Vec<(String, String)> = Vec::new();
    for line in text.lines() {
        let (name, digest) = line.split_once(' ').expect("one space per line");
        recovered.push((name.to_string(), digest.to_string()));
    }

    written.sort();
    recovered.sort();
    assert_eq!(written, recovered);
    assert_eq!(text.lines().count(), 2);
}

#[test]
fn parse_recovers_a_rendered_manifest() {
    let t = dir(vec![("beta", file("B")), ("alpha", file("A"))]);
    let m = t.calculate_entries_sha256("/work");
    let text = m.checksum_file_content();
    let parsed = Manifest::parse(&text).expect("well-formed text");
    assert_eq!(parsed.len(), m.len());
    for i in 0..m.len() {
        assert_eq!(parsed.name_at(i), m.name_at(i));
        assert_eq!(parsed.checksum_at(i).get(), m.checksum_at(i).get());
    }
}

#[test]
fn parse_accepts_only_the_flat_format() {
    assert!(Manifest::parse("").expect("empty text").len() == 0);
    let one = Manifest::parse("a 123\n").expect("one line");
    assert_eq!(one.len(), 1);
    assert_eq!(one.name_at(0), "a".to_string());
    assert_eq!(one.checksum_at(0).get(), "123");
    assert!(Manifest::parse("a 123").is_none());
    assert!(Manifest::parse("nospace\n").is_none());
}

#[test]
fn manifest_insert_sorts_and_replaces() {
    let mut m = Manifest::new();
    let ta = file("A");
    let tb = file("B");
    let ca: Checksum = ta.calculate_sha256("/a");
    let cb: Checksum = tb.calculate_sha256("/b");
    m.insert("zeta".to_string(), ca);
    m.insert("alpha".to_string(), cb);
    assert_eq!(m.len(), 2);
    assert_eq!(m.name_at(0), "alpha".to_string());
    assert_eq!(m.name_at(1), "zeta".to_string());
    let ca2 = ta.calculate_sha256("/a");
    m.insert("alpha".to_string(), ca2);
    assert_eq!(m.len(), 2);
    assert_eq!(m.get("alpha").expect("key").get(), A_SHA256);
}

#[test]
fn strfilename_takes_the_final_component() {
    assert_eq!(strfilename("a/b/c.txt"), "c.txt".to_string());
    assert_eq!(strfilename("c.txt"), "c.txt".to_string());
    assert_eq!(strfilename("a/b/"), "b".to_string());
    assert_eq!(strfilename("/"), "unknown".to_string());
    assert_eq!(strfilename(""), "unknown".to_string());
    assert_eq!(strfilename("a/.."), "unknown".to_string());
    assert_eq!(strfilename(".."), "unknown".to_string());
}

#[test]
fn strfilename_skips_trailing_current_directory_components() {
    assert_eq!(strfilename("a/."), "a".to_string());
    assert_eq!(strfilename("foo.txt/."), "foo.txt".to_string());
    assert_eq!(strfilename("a/./."), "a".to_string());
    assert_eq!(strfilename("a/.//"), "a".to_string());
    assert_eq!(strfilename("."), "unknown".to_string());
    assert_eq!(strfilename("./"), "unknown".to_string());
    assert_eq!(strfilename("/."), "unknown".to_string());
    assert_eq!(strfilename(".hidden"), ".hidden".to_string());
    assert_eq!(strfilename("a.b/."), "a.b".to_string());
    assert_eq!(strfilename("a/..."), "...".to_string());
}

#[test]
fn join_path_uses_a_single_separator() {
    assert_eq!(join_path("/work", "a"), "/work/a".to_string());
    assert_eq!(join_path("", "a"), "/a".to_string());
}

#[test]
fn accept_all_accepts_and_reject_name_rejects() {
    let all = AcceptAll;
    assert!(all.accepts("/anything"));
    let reject_b = RejectName("b".to_string());
    assert!(reject_b.accepts("/work/a"));
    assert!(!reject_b.accepts("/work/b"));
    assert!(reject_b.accepts("/work/b/c"));
}
