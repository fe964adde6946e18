use limmat::assoc::Assoc;
use limmat::git::CommitHash;
use limmat::graph::{CommitInfoBuffer, GraphBuffer, GraphError, Layout};

fn hash(c: char) -> String {
    c.to_string().repeat(40)
}

fn graph(text: &str) -> GraphBuffer {
    GraphBuffer::new(text.as_bytes().to_vec()).unwrap()
}

#[test]
fn graphs_are_divided_into_chunks() {
    let text = format!("* {}\n|\\  \n| * {}\n|/  \n\n* {}\n", hash('a'), hash('b'), hash('c'));
    let chunks = graph(&text).chunks().unwrap();
    let chunks: Vec<(&str, Vec<&str>)> = chunks
        .iter()
        .map(|(h, lines)| (h.as_str(), lines.iter().map(|l| l.as_str()).collect()))
        .collect();
    assert_eq!(
        chunks,
        [
            (hash('a').as_str(), vec!["* ", "|\\  "]),
            (hash('b').as_str(), vec!["| * ", "|/  "]),
            (hash('c').as_str(), vec!["* "]),
        ]
    );
    // No line with something in it gets lost.
    let lines: usize = chunks.iter().map(|(_, lines)| lines.len()).sum();
    assert_eq!(lines, text.trim().lines().filter(|l| !l.is_empty()).count());
    assert!(graph("").chunks().unwrap().is_empty());
}

#[test]
fn hashes_are_found_where_they_stand() {
    // Shorter runs are not hashes, longer ones are.
    let long = "0123456789abcdefghij0123456789abcdefghijklm";
    let chunks = graph(&format!("abc * {long} def")).chunks().unwrap();
    assert_eq!(chunks[0].0.as_str(), long);
    assert_eq!(chunks[0].1, ["abc * "]);
}

#[test]
fn chunks_without_a_hash_are_refused() {
    let err = graph("* abc\n").chunks().unwrap_err();
    assert_eq!(
        err,
        GraphError::BadChunk {
            matches: 0,
            chunk: vec!["* abc".to_owned()]
        }
    );
    assert_eq!(
        err.to_string(),
        "matched 0 commit hashes in graph chunk:\n[\"* abc\"]"
    );
}

#[test]
fn graphs_have_to_be_utf8() {
    let err = GraphBuffer::new(vec![0xff]).unwrap_err();
    assert_eq!(err, GraphError::NotUtf8);
    assert_eq!(err.to_string(), "got non-utf8 output from git log");
}

#[test]
fn formats_must_not_have_nul_in_them() {
    assert_eq!(
        CommitInfoBuffer::format("%h %s").unwrap(),
        "%H %h %s%x00"
    );
    let err = CommitInfoBuffer::format("%h%x00%s").unwrap_err();
    assert_eq!(err, GraphError::NulInFormat);
    assert_eq!(err.to_string(), "NUL bytes not allowed in log format");
}

#[test]
fn information_is_filed_by_hash() {
    let info = CommitInfoBuffer::new(&b"aaa one two\0\nbbb \0\n".to_vec())
        .info()
        .unwrap();
    assert_eq!(info.len(), 2);
    let get = |h: &str| info.get(&CommitHash::new(h.to_owned())).cloned();
    assert_eq!(get("aaa"), Some("one two".to_owned()));
    assert_eq!(get("bbb"), Some("".to_owned()));
    assert_eq!(get("ccc"), None);
    assert_eq!(CommitInfoBuffer::new(&vec![]).info().unwrap().len(), 0);
}

#[test]
fn information_that_is_not_utf8_is_squashed() {
    let info = CommitInfoBuffer::new(&b"aaa x\xffy\0".to_vec()).info().unwrap();
    assert_eq!(info.value_at(0), "x\u{fffd}y");
}

#[test]
fn information_has_to_follow_its_hash() {
    let err = CommitInfoBuffer::from_text("aaa one\0bbb\0".to_owned())
        .info()
        .unwrap_err();
    assert_eq!(err, GraphError::BadInfo);
    assert_eq!(err.to_string(), "expected chunk split len 2, got 1");
}

fn laid_out(chunk: &[&str], info: &str) -> Layout {
    let hash = CommitHash::new(hash('a'));
    let mut infos = Assoc::new();
    infos.insert(hash.clone(), info.to_owned());
    let chunk = chunk.iter().map(|s| s.to_string()).collect();
    Layout::new(&vec![(hash, chunk)], &infos).unwrap()
}

#[test]
fn graphs_are_stretched_to_make_room() {
    let layout = laid_out(&["|\\* / ", "| x"], "one\ntwo\nthree\n");
    assert_eq!(
        layout.lines,
        ["|\\* / one", "||| | two", "||| | three", "| x"]
    );
    assert_eq!(layout.status_commits.key_at(0), &3);
}

#[test]
fn long_graphs_keep_their_lines() {
    let layout = laid_out(&["* ", "|\\ ", "| |", "|/ "], "one");
    assert_eq!(layout.lines, ["* one", "|\\ ", "| |", "|/ "]);
    assert_eq!(layout.status_commits.key_at(0), &1);
}

#[test]
fn every_commit_has_a_row_for_its_status() {
    let mut infos = Assoc::new();
    let mut chunks = vec![];
    for c in ['a', 'b', 'c'] {
        let h = CommitHash::new(hash(c));
        infos.insert(h.clone(), "line 1\nline 2".to_owned());
        chunks.push((h, vec!["* ".to_owned()]));
    }
    let layout = Layout::new(&chunks, &infos).unwrap();
    assert_eq!(layout.lines.len(), 9);
    assert_eq!(layout.status_commits.len(), 3);
    for (i, c) in ['a', 'b', 'c'].into_iter().enumerate() {
        assert_eq!(
            layout.status_commits.get(&(3 * i + 2)).unwrap().as_str(),
            hash(c)
        );
    }
    assert!(Layout::empty().lines.is_empty());
}
