//! Finding transcripts.

use backcheck::session::{encode_cwd, is_transcript_name, newest, newest_first, Stored};

fn stored(path: &str, modified: i128) -> Stored {
    Stored {
        modified,
        path: path.to_string(),
    }
}

#[test]
fn encodes_paths_like_claude_code() {
    assert_eq!(
        encode_cwd("/Users/ann/src/my-app"),
        "-Users-ann-src-my-app"
    );
    assert_eq!(
        encode_cwd("/home/bo/proj.v2"),
        "-home-bo-proj-v2"
    );
}

#[test]
fn encoding_keeps_length_and_can_be_repeated() {
    let once = encode_cwd("/home/bo/my proj_2/é");
    assert_eq!(once.chars().count(), "/home/bo/my proj_2/é".chars().count());
    assert_eq!(encode_cwd(&once), once);
}

#[test]
fn transcripts_are_told_by_their_extension() {
    assert!(is_transcript_name("0af3.jsonl"));
    assert!(is_transcript_name("a.b.jsonl"));
    assert!(!is_transcript_name("0af3.json"));
    assert!(!is_transcript_name("jsonl"));
    assert!(!is_transcript_name(".jsonl"));
}

#[test]
fn the_newest_transcript_comes_first() {
    let items = vec![stored("a", 3), stored("b", -1), stored("c", 9)];
    assert_eq!(newest(&items).unwrap().path, "c");
    let order: Vec<&str> = newest_first(&items).iter().map(|s| s.path.as_str()).collect();
    assert_eq!(order, vec!["c", "a", "b"]);
    assert!(newest(&Vec::new()).is_none());
}
