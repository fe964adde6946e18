//! Taking apart what `git log` prints, and laying it out anew with room for
//! live information about each commit.
use crate::assoc::Assoc;
use crate::git::CommitHash;
use crate::ident::Ident;
use crate::strings;
use vstd::prelude::*;

verus! {

/// Matches commit hashes.
pub const COMMIT_HASH_PATTERN: &'static str = "[0-9a-z]{40,}";

/// Matches the marks in a graph that are not vertical lines.
pub const GRAPH_COMPONENT_PATTERN: &'static str = "[\\\\/\\*]";

/// A digit or a small letter.
pub open spec fn hash_char(c: char) -> bool {
    '0' <= c <= '9' || 'a' <= c <= 'z'
}

/// The runs of at least 40 digits and small letters in `s`, each with all that
/// comes before it. The run under way started at `start`, and everything from
/// there up to `i` belongs to it.
pub open spec fn hash_runs(s: Seq<char>, start: int, i: int) -> Seq<(Seq<char>, Seq<char>)>
    decreases s.len() - i,
{
    if i < s.len() && hash_char(s[i]) {
        hash_runs(s, start, i + 1)
    } else {
        let found = if i - start >= 40 {
            seq![(s.take(start), s.subrange(start, i))]
        } else {
            Seq::empty()
        };
        if i < s.len() {
            found + hash_runs(s, i + 1, i + 1)
        } else {
            found
        }
    }
}

/// Everything that looks like a commit hash in `s`, each with all that comes
/// before it.
pub open spec fn hashes_in(s: Seq<char>) -> Seq<(Seq<char>, Seq<char>)> {
    hash_runs(s, 0, 0)
}

/// Pairs of strings, as texts.
pub open spec fn text_pairs(v: Seq<(String, String)>) -> Seq<(Seq<char>, Seq<char>)> {
    Seq::new(v.len(), |i: int| (v[i].0@, v[i].1@))
}

/// `regex::Regex::find_iter`, for the pattern of commit hashes: the matches are
/// the longest possible runs of at least 40 digits and small letters, from the
/// first to the last. Each comes with the text before it.
#[verifier::external_body]
fn find_hashes(pattern: &str, s: &str) -> (r: Vec<(String, String)>)
    requires
        pattern@ == COMMIT_HASH_PATTERN@,
    ensures
        text_pairs(r@) == hashes_in(s@),
{
    regex::Regex::new(pattern)
        .unwrap()
        .find_iter(s)
        .map(|m| (s[..m.start()].to_string(), m.as_str().to_string()))
        .collect()
}

/// A diagonal line or an asterisk.
pub open spec fn graph_mark(c: char) -> bool {
    c == '\\' || c == '/' || c == '*'
}

/// A line of a graph with vertical lines in place of all other marks.
pub open spec fn verticals(s: Seq<char>) -> Seq<char> {
    Seq::new(
        s.len(),
        |i: int|
            if graph_mark(s[i]) {
                '|'
            } else {
                s[i]
            },
    )
}

/// `regex::Regex::replace_all`, for the pattern of graph marks and a vertical
/// line: each mark is replaced.
#[verifier::external_body]
fn replace_marks(pattern: &str, s: &str, replacement: &str) -> (r: String)
    requires
        pattern@ == GRAPH_COMPONENT_PATTERN@,
        replacement@ == "|"@,
    ensures
        r@ == verticals(s@),
{
    regex::Regex::new(pattern).unwrap().replace_all(s, replacement).into_owned()
}

/// Why the output of `git log` cannot be laid out.
#[derive(Debug, PartialEq, Eq)]
pub enum GraphError {
    /// The graph is not UTF-8.
    NotUtf8,
    /// The format for the information about commits must not have NUL bytes in
    /// it.
    NulInFormat,
    /// The first line of a part of the graph does not have one commit hash in
    /// it, but this many.
    BadChunk { matches: usize, chunk: Vec<String> },
    /// The information about a commit does not follow its hash.
    BadInfo,
    /// There is no information about a commit.
    MissingInfo(CommitHash),
}

/// Strings as a list is written in messages.
pub open spec fn debug_list(v: Seq<Seq<char>>) -> Seq<char> {
    seq!['['] + strings::joined(Seq::new(v.len(), |i: int| strings::debug_text(v[i])), ", "@)
        + seq![']']
}

impl GraphError {
    /// The message for this error.
    pub open spec fn message(&self) -> Seq<char> {
        match self {
            GraphError::NotUtf8 => "got non-utf8 output from git log"@,
            GraphError::NulInFormat => "NUL bytes not allowed in log format"@,
            GraphError::BadChunk { matches, chunk } => "matched "@ + strings::decimal(
                *matches as int,
            ) + " commit hashes in graph chunk:\n"@ + debug_list(strings::texts(chunk@)),
            GraphError::BadInfo => "expected chunk split len 2, got 1"@,
            GraphError::MissingInfo(hash) => "missing commit info for "@ + CommitHash::debug_form(
                hash@,
            ),
        }
    }

    /// The message for this error.
    pub fn to_string(&self) -> (r: String)
        ensures
            r@ == self.message(),
    {
        match self {
            GraphError::NotUtf8 => String::from_str("got non-utf8 output from git log"),
            GraphError::NulInFormat => String::from_str("NUL bytes not allowed in log format"),
            GraphError::BadChunk { matches, chunk } => {
                let mut forms: Vec<String> = Vec::new();
                let ghost all = Seq::new(
                    chunk@.len(),
                    |i: int| strings::debug_text(strings::texts(chunk@)[i]),
                );
                let mut i: usize = 0;
                while i < chunk.len()
                    invariant
                        i <= chunk@.len(),
                        all == Seq::new(
                            chunk@.len(),
                            |i: int| strings::debug_text(strings::texts(chunk@)[i]),
                        ),
                        strings::texts(forms@) =~= all.take(i as int),
                    decreases chunk@.len() - i,
                {
                    let form = strings::debug_string(chunk[i].as_str());
                    let ghost before = strings::texts(forms@);
                    forms.push(form);
                    assert(strings::texts(forms@) =~= before.push(form@));
                    i += 1;
                }
                assert(all.take(i as int) =~= all);
                let mut out: String = String::from_str("matched ");
                out.append(strings::decimal_text(*matches as u64).as_str());
                out.append(" commit hashes in graph chunk:\n");
                out.push('[');
                out.append(strings::join(&forms, ", ").as_str());
                out.push(']');
                assert(out@ =~= self.message());
                out
            },
            GraphError::BadInfo => String::from_str("expected chunk split len 2, got 1"),
            GraphError::MissingInfo(hash) => {
                let mut out: String = String::from_str("missing commit info for ");
                out.append(hash.debug().as_str());
                out
            },
        }
    }
}

/// The lines of a graph that were divided into complete chunks so far, and the
/// chunk under way. A line with an asterisk starts a new one; empty lines are
/// left out.
pub open spec fn divided(lines: Seq<Seq<char>>) -> (Seq<Seq<Seq<char>>>, Seq<Seq<char>>)
    decreases lines.len(),
{
    if lines.len() == 0 {
        (Seq::empty(), Seq::empty())
    } else {
        let (done, current) = divided(lines.drop_last());
        let line = lines.last();
        let (done, current) = if line.contains('*') && current.len() > 0 {
            (done.push(current), Seq::empty())
        } else {
            (done, current)
        };
        if line.len() > 0 {
            (done, current.push(line))
        } else {
            (done, current)
        }
    }
}

/// The lines of a graph in chunks.
pub open spec fn raw_chunks(lines: Seq<Seq<char>>) -> Seq<Seq<Seq<char>>> {
    let (done, current) = divided(lines);
    if current.len() > 0 {
        done.push(current)
    } else {
        done
    }
}

/// A line is not empty.
pub open spec fn not_empty() -> spec_fn(Seq<char>) -> bool {
    |line: Seq<char>| line.len() > 0
}

/// All the lines of some chunks.
pub open spec fn chunk_lines(chunks: Seq<Seq<Seq<char>>>) -> Seq<Seq<char>>
    decreases chunks.len(),
{
    if chunks.len() == 0 {
        Seq::empty()
    } else {
        chunk_lines(chunks.drop_last()) + chunks.last()
    }
}

/// Within a chunk only the first line has an asterisk, if any.
pub open spec fn one_commit(chunk: Seq<Seq<char>>) -> bool {
    &&& chunk.len() > 0
    &&& forall|i: int| 0 < i < chunk.len() ==> !(#[trigger] chunk[i]).contains('*')
}

proof fn lemma_divided(lines: Seq<Seq<char>>)
    ensures
        chunk_lines(divided(lines).0) + divided(lines).1 == lines.filter(not_empty()),
        forall|k: int| 0 <= k < divided(lines).0.len() ==> one_commit(#[trigger] divided(lines).0[k]),
        divided(lines).1.len() > 0 ==> one_commit(divided(lines).1),
    decreases lines.len(),
{
    reveal(Seq::filter);
    if lines.len() > 0 {
        let rest = lines.drop_last();
        let line = lines.last();
        lemma_divided(rest);
        let (done, current) = divided(rest);
        let (done2, current2) = divided(lines);
        if line.contains('*') && current.len() > 0 {
            assert(done2.drop_last() =~= done);
            assert(chunk_lines(done2) == chunk_lines(done) + current);
            assert forall|k: int| 0 <= k < done2.len() implies one_commit(#[trigger] done2[k]) by {
                if k < done.len() {
                    assert(done2[k] == done[k]);
                }
            }
        }
        if line.contains('*') {
            let k = line.index_of('*');
            assert(line.len() > 0);
        }
        assert(chunk_lines(done2) + current2 =~= lines.filter(not_empty()));
    } else {
        assert(chunk_lines(divided(lines).0) + divided(lines).1 =~= lines.filter(not_empty()));
    }
}

/// Dividing a graph into chunks loses no line but the empty ones, and no chunk
/// goes on past the line of another commit.
pub proof fn lemma_chunks_keep_lines(lines: Seq<Seq<char>>)
    ensures
        chunk_lines(raw_chunks(lines)) == lines.filter(not_empty()),
        forall|k: int| 0 <= k < raw_chunks(lines).len() ==> one_commit(
            #[trigger] raw_chunks(lines)[k],
        ),
{
    lemma_divided(lines);
    let (done, current) = divided(lines);
    let all = raw_chunks(lines);
    if current.len() > 0 {
        assert(all.drop_last() =~= done);
        assert forall|k: int| 0 <= k < all.len() implies one_commit(#[trigger] all[k]) by {
            if k < done.len() {
                assert(all[k] == done[k]);
            }
        }
    } else {
        assert(chunk_lines(done) + current =~= chunk_lines(done));
    }
}

/// A chunk has one commit hash in its first line.
pub open spec fn has_one_hash(chunk: Seq<Seq<char>>) -> bool {
    hashes_in(chunk[0]).len() == 1
}

/// The commit hash of a chunk, and the chunk with only the graph in its first
/// line.
pub open spec fn parsed_chunk(chunk: Seq<Seq<char>>) -> (Seq<char>, Seq<Seq<char>>) {
    let (before, hash) = hashes_in(chunk[0])[0];
    (hash, chunk.update(0, before))
}

/// The given chunk is the first that does not have one commit hash in its first
/// line, but this many.
pub open spec fn is_bad_chunk(
    parts: Seq<Seq<Seq<char>>>,
    matches: nat,
    chunk: Seq<Seq<char>>,
) -> bool {
    exists|k: int|
        0 <= k < parts.len() && chunk == #[trigger] parts[k] && matches == hashes_in(
            parts[k][0],
        ).len() && !has_one_hash(parts[k]) && forall|j: int|
            0 <= j < k ==> has_one_hash(#[trigger] parts[j])
}

/// The given hash is that of the first commit without information.
pub open spec fn is_missing(
    chunks: Seq<(Seq<char>, Seq<Seq<char>>)>,
    known: Set<Seq<char>>,
    hash: Seq<char>,
) -> bool {
    exists|k: int|
        0 <= k < chunks.len() && hash == (#[trigger] chunks[k]).0 && !known.contains(hash)
            && forall|j: int| 0 <= j < k ==> known.contains((#[trigger] chunks[j]).0)
}

/// Commit hashes with chunks, as texts.
pub open spec fn chunk_views(v: Seq<(CommitHash, Vec<String>)>) -> Seq<(Seq<char>, Seq<Seq<char>>)> {
    Seq::new(v.len(), |i: int| (v[i].0@, strings::texts(v[i].1@)))
}

/// Lists of strings, as texts.
spec fn lists(v: Seq<Vec<String>>) -> Seq<Seq<Seq<char>>> {
    Seq::new(v.len(), |i: int| strings::texts(v[i]@))
}

/// The graph that `git log --graph` prints, with nothing but hashes for the
/// commits.
#[derive(Debug)]
pub struct GraphBuffer {
    raw_buf: String,
}

impl GraphBuffer {
    /// The output of git.
    pub closed spec fn raw(&self) -> Seq<char> {
        self.raw_buf@
    }

    /// The lines of the graph in chunks.
    pub open spec fn parts(&self) -> Seq<Seq<Seq<char>>> {
        raw_chunks(strings::pieces(strings::trimmed(self.raw()), '\n'))
    }

    /// Takes the output of git, which must be UTF-8.
    pub fn new(raw_buf: Vec<u8>) -> (r: Result<Self, GraphError>)
        ensures
            match r {
                Ok(buf) => vstd::utf8::valid_utf8(raw_buf@) && buf.raw()
                    == vstd::utf8::decode_utf8(raw_buf@),
                Err(e) => !vstd::utf8::valid_utf8(raw_buf@) && e == GraphError::NotUtf8,
            },
    {
        match strings::utf8_text(raw_buf) {
            Some(raw_buf) => Ok(GraphBuffer { raw_buf }),
            None => Err(GraphError::NotUtf8),
        }
    }

    /// Whether a line has an asterisk.
    fn starts_chunk(line: &str) -> (r: bool)
        ensures
            r == line@.contains('*'),
    {
        let chars = strings::chars_of(line);
        let mut i: usize = 0;
        while i < chars.len()
            invariant
                i <= chars@.len(),
                chars@ == line@,
                forall|k: int| 0 <= k < i ==> chars@[k] != '*',
            decreases chars@.len() - i,
        {
            if chars[i] == '*' {
                assert(line@[i as int] == '*');
                return true;
            }
            i += 1;
        }
        false
    }

    /// The lines of the graph in chunks.
    fn raw_chunks(&self) -> (r: Vec<Vec<String>>)
        ensures
            lists(r@) == self.parts(),
            forall|k: int| 0 <= k < r@.len() ==> (#[trigger] r@[k])@.len() > 0,
    {
        let lines = strings::split(strings::trim(self.raw_buf.as_str()).as_str(), '\n');
        let ghost all = strings::texts(lines@);
        let mut done: Vec<Vec<String>> = Vec::new();
        let mut current: Vec<String> = Vec::new();
        let mut i: usize = 0;
        assert(all.take(0) =~= Seq::empty());
        while i < lines.len()
            invariant
                i <= lines@.len(),
                all == strings::texts(lines@),
                lists(done@) =~= divided(all.take(i as int)).0,
                strings::texts(current@) =~= divided(all.take(i as int)).1,
                forall|k: int| 0 <= k < done@.len() ==> (#[trigger] done@[k])@.len() > 0,
            decreases lines@.len() - i,
        {
            assert(all.take(i + 1).drop_last() =~= all.take(i as int));
            assert(all.take(i + 1).last() == all[i as int]);
            // --graph uses * to represent a node in the DAG.
            if GraphBuffer::starts_chunk(lines[i].as_str()) && current.len() > 0 {
                let ghost before = lists(done@);
                let ghost chunk = strings::texts(current@);
                done.push(current);
                assert(lists(done@) =~= before.push(chunk));
                current = Vec::new();
                assert(strings::texts(current@) =~= Seq::empty());
            }
            if !lines[i].as_str().is_empty() {
                let ghost before = strings::texts(current@);
                current.push(lines[i].clone());
                assert(strings::texts(current@) =~= before.push(all[i as int]));
            }
            i += 1;
        }
        assert(all.take(i as int) =~= all);
        if current.len() > 0 {
            let ghost before = lists(done@);
            let ghost chunk = strings::texts(current@);
            done.push(current);
            assert(lists(done@) =~= before.push(chunk));
        }
        done
    }

    /// Parse pairs of commit hash and chunks from the buffer, split by line.
    pub fn chunks(&self) -> (r: Result<Vec<(CommitHash, Vec<String>)>, GraphError>)
        ensures
            r is Ok <==> (forall|k: int|
                0 <= k < self.parts().len() ==> has_one_hash(#[trigger] self.parts()[k])),
            match r {
                Ok(chunks) => chunk_views(chunks@) == Seq::new(
                    self.parts().len(),
                    |k: int| parsed_chunk(self.parts()[k]),
                ) && (forall|k: int| 0 <= k < chunks@.len() ==> (#[trigger] chunks@[k]).1@.len() > 0),
                Err(e) => e matches GraphError::BadChunk { matches, chunk } && is_bad_chunk(
                    self.parts(),
                    matches as nat,
                    strings::texts(chunk@),
                ),
            },
    {
        let ghost parts = self.parts();
        let mut raw = self.raw_chunks();
        let mut chunks: Vec<(CommitHash, Vec<String>)> = Vec::new();
        let ghost goal = Seq::new(parts.len(), |k: int| parsed_chunk(parts[k]));
        let ghost mut n: int = 0;
        assert(lists(raw@) =~= parts.skip(0));
        while raw.len() > 0
            invariant
                0 <= n <= parts.len(),
                parts == self.parts(),
                goal == Seq::new(parts.len(), |k: int| parsed_chunk(parts[k])),
                lists(raw@) =~= parts.skip(n),
                forall|k: int| 0 <= k < raw@.len() ==> (#[trigger] raw@[k])@.len() > 0,
                chunk_views(chunks@) =~= goal.take(n),
                forall|k: int| 0 <= k < chunks@.len() ==> (#[trigger] chunks@[k]).1@.len() > 0,
                forall|k: int| 0 <= k < n ==> has_one_hash(#[trigger] parts[k]),
            decreases raw@.len(),
        {
            let ghost lists_before = lists(raw@);
            assert(lists_before.len() == parts.len() - n);
            assert(lists_before[0] == parts.skip(n)[0]);
            let mut chunk = raw.remove(0);
            assert(strings::texts(chunk@) == parts[n]);
            assert(lists(raw@) =~= parts.skip(n + 1)) by {
                assert(lists(raw@) =~= lists_before.drop_first());
            }
            assert(chunk@[0]@ == parts[n][0]);
            // The commit hash should be the only alphanumeric sequence in the
            // chunk and it should be in the first line.
            let mut found = find_hashes(COMMIT_HASH_PATTERN, chunk[0].as_str());
            let ghost pairs = text_pairs(found@);
            if found.len() != 1 {
                assert(!has_one_hash(parts[n]));
                return Err(GraphError::BadChunk { matches: found.len(), chunk });
            }
            let (before, hash) = found.remove(0);
            assert(pairs[0] == (before@, hash@));
            // We only want the graph bit, strip out the commit hash which we
            // only put in there as an anchor for this parsing.
            let ghost whole = strings::texts(chunk@);
            chunk.set(0, before);
            assert(strings::texts(chunk@) =~= whole.update(0, before@));
            let ghost views = chunk_views(chunks@);
            chunks.push((CommitHash::new(hash), chunk));
            assert(chunk_views(chunks@) =~= views.push(goal[n]));
            proof {
                n = n + 1;
            }
        }
        assert(n == parts.len()) by {
            assert(lists(raw@).len() == parts.skip(n).len());
        }
        assert(goal.take(n) =~= goal);
        Ok(chunks)
    }
}

/// What holds the information about commits: the output of git without white
/// space at its ends and without the last NUL.
pub open spec fn info_body(raw: Seq<char>) -> Seq<char> {
    let b = strings::trimmed(raw);
    if b.len() > 0 && b.last() == '\0' {
        b.drop_last()
    } else {
        b
    }
}

/// The parts of the information, one for each commit.
pub open spec fn info_parts(raw: Seq<char>) -> Seq<Seq<char>> {
    if info_body(raw).len() == 0 {
        Seq::empty()
    } else {
        strings::pieces(info_body(raw), '\0')
    }
}

/// A part of the information: the hash, which ends at the first space, and what
/// comes after it.
pub open spec fn info_entry(part: Seq<char>) -> (Seq<char>, Seq<char>) {
    let k = part.index_of_first(' ')->0;
    (strings::trimmed(part.take(k)), part.skip(k + 1))
}

/// The information about each commit. Of two parts for the same commit the
/// later one counts.
pub open spec fn info_map(parts: Seq<Seq<char>>) -> Map<Seq<char>, Seq<char>>
    decreases parts.len(),
{
    if parts.len() == 0 {
        Map::empty()
    } else {
        let (hash, info) = info_entry(parts.last());
        info_map(parts.drop_last()).insert(hash, info)
    }
}

/// A map to strings, as texts.
pub open spec fn value_texts(m: Map<Seq<char>, String>) -> Map<Seq<char>, Seq<char>> {
    Map::new(|k: Seq<char>| m.dom().contains(k), |k: Seq<char>| m[k]@)
}

/// Information about commits, as `git log` prints it with a single command.
#[derive(Debug)]
pub struct CommitInfoBuffer {
    raw_buf: String,
}

impl CommitInfoBuffer {
    /// The output of git.
    pub closed spec fn raw(&self) -> Seq<char> {
        self.raw_buf@
    }

    /// The format to give to git so that it prints the information in
    /// `log_format` for each commit. It must not contain %x00 as that's used
    /// internally for splitting up the raw buffer.
    pub fn format(log_format: &str) -> (r: Result<String, GraphError>)
        ensures
            match r {
                Ok(format) => !strings::has_part(log_format@, "%x00"@) && format@ == "%H "@
                    + log_format@ + "%x00"@,
                Err(e) => strings::has_part(log_format@, "%x00"@) && e == GraphError::NulInFormat,
            },
    {
        if strings::contains_text(log_format, "%x00") {
            return Err(GraphError::NulInFormat);
        }
        let mut out: String = String::from_str("%H ");
        out.append(log_format);
        out.append("%x00");
        Ok(out)
    }

    /// Takes the output of git, squashed to UTF-8.
    pub fn new(raw_buf: &Vec<u8>) -> (r: Self)
        ensures
            r.raw() == strings::lossy_text(raw_buf@),
            vstd::utf8::valid_utf8(raw_buf@) ==> r.raw() == vstd::utf8::decode_utf8(raw_buf@),
    {
        CommitInfoBuffer { raw_buf: strings::lossy_string(raw_buf) }
    }

    /// Takes the output of git as text.
    pub fn from_text(raw_buf: String) -> (r: Self)
        ensures
            r.raw() == raw_buf@,
    {
        CommitInfoBuffer { raw_buf }
    }

    /// The hash and the information in a part; `None` if there is no space
    /// between them.
    fn entry(part: &str) -> (r: Option<(CommitHash, String)>)
        ensures
            match r {
                Some((hash, info)) => part@.contains(' ') && (hash@, info@) == info_entry(part@),
                None => !part@.contains(' '),
            },
    {
        let chars = strings::chars_of(part);
        let mut k: usize = 0;
        while k < chars.len() && chars[k] != ' '
            invariant
                k <= chars@.len(),
                chars@ == part@,
                forall|i: int| 0 <= i < k ==> chars@[i] != ' ',
            decreases chars@.len() - k,
        {
            k += 1;
        }
        if k == chars.len() {
            return None;
        }
        proof {
            let s = part@;
            assert(s[k as int] == ' ');
            s.index_of_first_ensures(' ');
            let first = s.index_of_first(' ')->0;
            assert(first == k) by {
                if first < k {
                    assert(s[first] != ' ');
                }
            }
        }
        let hash = strings::string_of(&chars, 0, k);
        let info = strings::string_of(&chars, k + 1, chars.len());
        assert(hash@ =~= part@.take(k as int));
        assert(info@ =~= part@.skip(k + 1));
        Some((CommitHash::new(strings::trim(hash.as_str())), info))
    }

    /// The information about each commit.
    pub fn info(&self) -> (r: Result<Assoc<CommitHash, String>, GraphError>)
        ensures
            r is Ok <==> (forall|i: int|
                0 <= i < info_parts(self.raw()).len() ==> (#[trigger] info_parts(
                    self.raw(),
                )[i]).contains(' ')),
            match r {
                Ok(info) => info.wf() && value_texts(info@) == info_map(info_parts(self.raw())),
                Err(e) => e == GraphError::BadInfo,
            },
    {
        let b = strings::trim(self.raw_buf.as_str());
        let chars = strings::chars_of(b.as_str());
        let keep: usize = if chars.len() > 0 && chars[chars.len() - 1] == '\0' {
            chars.len() - 1
        } else {
            chars.len()
        };
        let b = strings::string_of(&chars, 0, keep);
        assert(b@ =~= info_body(self.raw()));
        let mut map: Assoc<CommitHash, String> = Assoc::new();
        assert(value_texts(Map::empty()) =~= Map::empty());
        if b.as_str().is_empty() {
            return Ok(map);
        }
        let parts = strings::split(b.as_str(), '\0');
        let ghost all = info_parts(self.raw());
        assert(strings::texts(parts@) == all);
        assert(all.take(0) =~= Seq::empty());
        let mut i: usize = 0;
        while i < parts.len()
            invariant
                i <= parts@.len(),
                all == info_parts(self.raw()),
                strings::texts(parts@) == all,
                map.wf(),
                value_texts(map@) == info_map(all.take(i as int)),
                forall|k: int| 0 <= k < i ==> (#[trigger] all[k]).contains(' '),
            decreases parts@.len() - i,
        {
            assert(all.take(i + 1).drop_last() =~= all.take(i as int));
            assert(all.take(i + 1).last() == all[i as int]);
            match CommitInfoBuffer::entry(parts[i].as_str()) {
                Some((hash, info)) => {
                    let ghost before = map@;
                    let ghost key = hash@;
                    map.insert(hash, info);
                    assert(value_texts(map@) =~= value_texts(before).insert(key, info@));
                },
                None => {
                    assert(!all[i as int].contains(' '));
                    return Err(GraphError::BadInfo);
                },
            }
            i += 1;
        }
        assert(all.take(i as int) =~= all);
        Ok(map)
    }
}

/// The information about a commit without the line feed that git printed at its
/// end.
pub open spec fn without_line_feed(info: Seq<char>) -> Seq<char> {
    if info.len() > 0 && info.last() == '\n' {
        info.drop_last()
    } else {
        info
    }
}

/// The lines of information about a commit, and an empty one below them where
/// the live status goes.
pub open spec fn info_rows(info: Seq<char>) -> Seq<Seq<char>> {
    strings::pieces(without_line_feed(info), '\n').push(Seq::empty())
}

/// How many lines a graph must be stretched by to make room.
pub open spec fn deficit(chunk: Seq<Seq<char>>, rows: nat) -> nat {
    if rows > chunk.len() {
        (rows - chunk.len()) as nat
    } else {
        0
    }
}

/// A line of the graph of a commit, stretched below its first line by vertical
/// lines.
pub open spec fn graph_row(chunk: Seq<Seq<char>>, rows: nat, i: int) -> Seq<char> {
    let more = deficit(chunk, rows);
    if i == 0 {
        chunk[0]
    } else if i <= more {
        verticals(chunk[0])
    } else {
        chunk[i - more]
    }
}

/// The graph and the information of a commit side by side.
pub open spec fn laid_out(chunk: Seq<Seq<char>>, info: Seq<char>) -> Seq<Seq<char>> {
    let rows = info_rows(info);
    Seq::new(
        chunk.len() + deficit(chunk, rows.len()),
        |i: int|
            graph_row(chunk, rows.len(), i) + if i < rows.len() {
                rows[i]
            } else {
                Seq::empty()
            },
    )
}

/// All commits, one below the other.
pub open spec fn all_rows(
    chunks: Seq<(Seq<char>, Seq<Seq<char>>)>,
    info: Map<Seq<char>, Seq<char>>,
) -> Seq<Seq<char>>
    decreases chunks.len(),
{
    if chunks.len() == 0 {
        Seq::empty()
    } else {
        all_rows(chunks.drop_last(), info) + laid_out(chunks.last().1, info[chunks.last().0])
    }
}

/// The row for the live status of the last of some commits.
pub open spec fn last_status_row(
    chunks: Seq<(Seq<char>, Seq<Seq<char>>)>,
    info: Map<Seq<char>, Seq<char>>,
) -> int {
    all_rows(chunks.drop_last(), info).len() + info_rows(info[chunks.last().0]).len() - 1
}

/// The rows for the live status of commits.
pub open spec fn status_rows(
    chunks: Seq<(Seq<char>, Seq<Seq<char>>)>,
    info: Map<Seq<char>, Seq<char>>,
) -> Map<usize, Seq<char>>
    decreases chunks.len(),
{
    if chunks.len() == 0 {
        Map::empty()
    } else {
        status_rows(chunks.drop_last(), info).insert(
            last_status_row(chunks, info) as usize,
            chunks.last().0,
        )
    }
}

/// A map to commits, as texts.
pub open spec fn commit_texts(m: Map<usize, CommitHash>) -> Map<usize, Seq<char>> {
    Map::new(|k: usize| m.dom().contains(k), |k: usize| m[k]@)
}

/// Every commit has a row of its own for its live status, within the rows that
/// show it, and no other row is for a status.
pub proof fn lemma_status_rows(
    chunks: Seq<(Seq<char>, Seq<Seq<char>>)>,
    info: Map<Seq<char>, Seq<char>>,
    k: int,
)
    requires
        0 <= k < chunks.len(),
        all_rows(chunks, info).len() <= usize::MAX,
    ensures
        all_rows(chunks.take(k), info).len() <= last_status_row(chunks.take(k + 1), info)
            < all_rows(chunks.take(k + 1), info).len() <= all_rows(chunks, info).len(),
        status_rows(chunks, info).dom().contains(
            last_status_row(chunks.take(k + 1), info) as usize,
        ),
        status_rows(chunks, info)[last_status_row(chunks.take(k + 1), info) as usize]
            == chunks[k].0,
        forall|row: usize| #[trigger]
            status_rows(chunks, info).dom().contains(row) ==> row < all_rows(chunks, info).len(),
    decreases chunks.len(),
{
    let rest = chunks.drop_last();
    let last: int = chunks.len() - 1;
    assert(chunks.take(last + 1) =~= chunks);
    assert(chunks.take(last) =~= rest);
    assert(laid_out(chunks.last().1, info[chunks.last().0]).len() >= info_rows(
        info[chunks.last().0],
    ).len());
    if rest.len() > 0 {
        lemma_status_rows(rest, info, 0);
    }
    assert forall|row: usize| #[trigger]
        status_rows(chunks, info).dom().contains(row) implies row < all_rows(chunks, info).len() by {
        if row != last_status_row(chunks, info) as usize {
            assert(status_rows(rest, info).dom().contains(row));
        }
    }
    if k < last {
        lemma_status_rows(rest, info, k);
        assert(rest.take(k) =~= chunks.take(k));
        assert(rest.take(k + 1) =~= chunks.take(k + 1));
    }
}

/// The lines to show for some commits.
#[derive(Debug)]
pub struct Layout {
    /// Lines with static information (graph, commit log info etc).
    pub lines: Vec<String>,
    /// lines[i] should be appended with the live status information of tests
    /// for status_commits[i].
    pub status_commits: Assoc<usize, CommitHash>,
}

impl Layout {
    /// No lines.
    pub fn empty() -> (r: Self)
        ensures
            r.lines@.len() == 0,
            r.status_commits.wf(),
            r.status_commits@ == Map::<usize, CommitHash>::empty(),
    {
        Layout { lines: Vec::new(), status_commits: Assoc::new() }
    }

    /// Appends the lines for one commit, and tells how far down its status
    /// goes.
    fn lay_out(lines: &mut Vec<String>, chunk: &Vec<String>, info: &str) -> (r: usize)
        requires
            chunk@.len() > 0,
        ensures
            strings::texts(final(lines)@) == strings::texts(old(lines)@) + laid_out(
                strings::texts(chunk@),
                info@,
            ),
            r == info_rows(info@).len() - 1,
    {
        let ghost graph = strings::texts(chunk@);
        let ghost start = strings::texts(lines@);
        // We're gonna add our own newlines in so we don't need the one that
        // Git printed.
        let chars = strings::chars_of(info);
        let keep: usize = if chars.len() > 0 && chars[chars.len() - 1] == '\n' {
            chars.len() - 1
        } else {
            chars.len()
        };
        let info_text = strings::string_of(&chars, 0, keep);
        assert(info_text@ =~= without_line_feed(info@));
        let mut rows = strings::split(info_text.as_str(), '\n');
        let status: usize = rows.len();
        let ghost pieces = strings::texts(rows@);
        rows.push(String::new());
        assert(strings::texts(rows@) =~= pieces.push(Seq::empty()));
        let ghost all = info_rows(info@);
        assert(strings::texts(rows@) == all);
        // Where there is more information than graph, stretch the graph: copy
        // the vertical lines next to the commit and add one that points up to
        // it.
        let more: usize = if rows.len() > chunk.len() {
            rows.len() - chunk.len()
        } else {
            0
        };
        let extension = replace_marks(GRAPH_COMPONENT_PATTERN, chunk[0].as_str(), "|");
        let ghost goal = laid_out(graph, info@);
        let mut i: usize = 0;
        assert(start + goal.take(0) =~= start);
        // The number of lines is the greater of the two.
        let total: usize = if rows.len() > chunk.len() {
            rows.len()
        } else {
            chunk.len()
        };
        while i < total
            invariant
                i <= total,
                chunk@.len() > 0,
                graph == strings::texts(chunk@),
                all == info_rows(info@),
                strings::texts(rows@) == all,
                more == deficit(graph, all.len()),
                total == goal.len(),
                total == graph.len() + more,
                goal == laid_out(graph, info@),
                extension@ == verticals(graph[0]),
                strings::texts(lines@) == start + goal.take(i as int),
            decreases total - i,
        {
            let mut line: String = if i == 0 {
                chunk[0].clone()
            } else if i <= more {
                extension.clone()
            } else {
                chunk[i - more].clone()
            };
            assert(line@ == graph_row(graph, all.len(), i as int));
            if i < rows.len() {
                line.append(rows[i].as_str());
            }
            assert(line@ =~= goal[i as int]);
            let ghost before = strings::texts(lines@);
            lines.push(line);
            assert(strings::texts(lines@) =~= before.push(goal[i as int]));
            assert((start + goal.take(i as int)).push(goal[i as int]) =~= start + goal.take(
                i + 1,
            ));
            i += 1;
        }
        assert(goal.take(i as int) =~= goal);
        status
    }

    /// Lays out the parts of a graph with the information about their commits.
    pub fn new(
        chunks: &Vec<(CommitHash, Vec<String>)>,
        commit_info: &Assoc<CommitHash, String>,
    ) -> (r: Result<Self, GraphError>)
        requires
            commit_info.wf(),
            forall|k: int| 0 <= k < chunks@.len() ==> (#[trigger] chunks@[k]).1@.len() > 0,
        ensures
            r is Ok <==> (forall|k: int|
                0 <= k < chunks@.len() ==> commit_info@.dom().contains(
                    (#[trigger] chunks@[k]).0@,
                )),
            match r {
                Ok(layout) => {
                    &&& layout.status_commits.wf()
                    &&& strings::texts(layout.lines@) == all_rows(
                        chunk_views(chunks@),
                        value_texts(commit_info@),
                    )
                    &&& commit_texts(layout.status_commits@) == status_rows(
                        chunk_views(chunks@),
                        value_texts(commit_info@),
                    )
                },
                Err(e) => e matches GraphError::MissingInfo(hash) && is_missing(
                    chunk_views(chunks@),
                    commit_info@.dom(),
                    hash@,
                ),
            },
    {
        let ghost all = chunk_views(chunks@);
        let ghost info = value_texts(commit_info@);
        let mut lines: Vec<String> = Vec::new();
        let mut status_commits: Assoc<usize, CommitHash> = Assoc::new();
        let mut i: usize = 0;
        assert(all.take(0) =~= Seq::empty());
        assert(strings::texts(lines@) =~= Seq::empty());
        assert(commit_texts(Map::empty()) =~= Map::empty());
        while i < chunks.len()
            invariant
                i <= chunks@.len(),
                commit_info.wf(),
                all == chunk_views(chunks@),
                info == value_texts(commit_info@),
                forall|k: int| 0 <= k < chunks@.len() ==> (#[trigger] chunks@[k]).1@.len() > 0,
                forall|k: int|
                    0 <= k < i ==> commit_info@.dom().contains((#[trigger] chunks@[k]).0@),
                status_commits.wf(),
                strings::texts(lines@) == all_rows(all.take(i as int), info),
                commit_texts(status_commits@) == status_rows(all.take(i as int), info),
            decreases chunks@.len() - i,
        {
            let hash = &chunks[i].0;
            let chunk = &chunks[i].1;
            assert(all.take(i + 1).drop_last() =~= all.take(i as int));
            assert(all.take(i + 1).last() == all[i as int]);
            let text = match commit_info.get(hash) {
                Some(text) => text,
                None => {
                    assert(all[i as int].0 == hash@);
                    return Err(GraphError::MissingInfo(hash.clone()));
                },
            };
            assert(chunks@[i as int].1@.len() > 0);
            assert(info[hash@] == text@);
            let start: usize = lines.len();
            // Here's where we'll inject the live status.
            let below: usize = Layout::lay_out(&mut lines, chunk, text.as_str());
            let end: usize = lines.len();
            assert(strings::texts(lines@).len() == lines@.len());
            let ghost before = status_commits@;
            let row: usize = start + below;
            status_commits.insert(row, hash.clone());
            proof {
                assert(row == last_status_row(all.take(i + 1), info));
                assert(commit_texts(status_commits@) =~= commit_texts(before).insert(row, hash@));
            }
            i += 1;
        }
        assert(all.take(i as int) =~= all);
        Ok(Layout { lines, status_commits })
    }
}

/// Everything that is found has at least 40 characters, all of them digits or
/// small letters, and stands in the text right after what comes before it; and
/// nothing around it belongs to it too.
pub proof fn lemma_hashes_found(s: Seq<char>, k: int)
    requires
        0 <= k < hashes_in(s).len(),
    ensures
        ({
            let (before, hash) = hashes_in(s)[k];
            &&& hash.len() >= 40
            &&& forall|i: int|
                0 <= i < hash.len() ==> '0' <= #[trigger] hash[i] <= '9' || 'a' <= hash[i] <= 'z'
            &&& (before + hash).is_prefix_of(s)
            &&& before.len() > 0 ==> !hash_char(before.last())
            &&& before.len() + hash.len() < s.len() ==> !hash_char(
                s[(before.len() + hash.len()) as int],
            )
        }),
{
    lemma_runs_found(s, 0, 0, k);
}

/// What is found from some place on.
proof fn lemma_runs_found(s: Seq<char>, start: int, i: int, k: int)
    requires
        0 <= start <= i <= s.len(),
        start > 0 ==> !hash_char(s[start - 1]),
        forall|j: int| start <= j < i ==> hash_char(#[trigger] s[j]),
        0 <= k < hash_runs(s, start, i).len(),
    ensures
        ({
            let (before, hash) = hash_runs(s, start, i)[k];
            &&& hash.len() >= 40
            &&& forall|j: int| 0 <= j < hash.len() ==> hash_char(#[trigger] hash[j])
            &&& (before + hash).is_prefix_of(s)
            &&& before.len() > 0 ==> !hash_char(before.last())
            &&& before.len() + hash.len() < s.len() ==> !hash_char(
                s[(before.len() + hash.len()) as int],
            )
        }),
    decreases s.len() - i,
{
    if i < s.len() && hash_char(s[i]) {
        lemma_runs_found(s, start, i + 1, k);
    } else {
        let found = if i - start >= 40 {
            seq![(s.take(start), s.subrange(start, i))]
        } else {
            Seq::empty()
        };
        if k < found.len() {
            assert(s.take(start) + s.subrange(start, i) =~= s.take(i));
            assert(hash_runs(s, start, i)[k] == found[k]);
        } else {
            lemma_runs_found(s, i + 1, i + 1, k - found.len());
            assert(hash_runs(s, start, i)[k] == hash_runs(s, i + 1, i + 1)[k - found.len()]);
        }
    }
}

/// The hash of a commit is found where it stands, with the part of the graph
/// before it.
pub proof fn lemma_hash_is_found(before: Seq<char>, hash: Seq<char>, after: Seq<char>)
    requires
        forall|i: int| 0 <= i < before.len() ==> !hash_char(#[trigger] before[i]),
        forall|i: int|
            0 <= i < hash.len() ==> '0' <= #[trigger] hash[i] <= '9' || 'a' <= hash[i] <= 'z',
        forall|i: int| 0 <= i < after.len() ==> !hash_char(#[trigger] after[i]),
        hash.len() >= 40,
    ensures
        hashes_in(before + hash + after) == seq![(before, hash)],
{
    let s = before + hash + after;
    lemma_runs_before(s, before.len() as int, 0);
    lemma_run_of_hash(s, before.len() as int, (before.len() + hash.len()) as int, before.len() as int);
    let end: int = (before.len() + hash.len()) as int;
    if end < s.len() {
        lemma_runs_before(s, s.len() as int, end + 1);
    }
    assert(s.take(before.len() as int) =~= before);
    assert(s.subrange(before.len() as int, end) =~= hash);
    assert(hashes_in(s) =~= seq![(before, hash)]);
}

/// Where there are no characters of hashes, nothing is found.
proof fn lemma_runs_before(s: Seq<char>, end: int, i: int)
    requires
        0 <= i <= end <= s.len(),
        forall|j: int| i <= j < end ==> !hash_char(#[trigger] s[j]),
    ensures
        hash_runs(s, i, i) == hash_runs(s, end, end),
    decreases end - i,
{
    if i < end {
        lemma_runs_before(s, end, i + 1);
        assert(hash_runs(s, i, i) =~= hash_runs(s, i + 1, i + 1));
    }
}

/// A run of characters of hashes is found as a whole.
proof fn lemma_run_of_hash(s: Seq<char>, start: int, end: int, i: int)
    requires
        0 <= start <= i <= end <= s.len(),
        end - start >= 40,
        forall|j: int| start <= j < end ==> hash_char(#[trigger] s[j]),
        end < s.len() ==> !hash_char(s[end]),
    ensures
        hash_runs(s, start, i) == seq![(s.take(start), s.subrange(start, end))] + (if end
            < s.len() {
            hash_runs(s, end + 1, end + 1)
        } else {
            Seq::empty()
        }),
    decreases end - i,
{
    if i < end {
        lemma_run_of_hash(s, start, end, i + 1);
    } else {
        assert(hash_runs(s, start, i) =~= seq![(s.take(start), s.subrange(start, end))] + (if end
            < s.len() {
            hash_runs(s, end + 1, end + 1)
        } else {
            Seq::empty()
        }));
    }
}

/// A chunk is parsed into the hash of its commit and its graph: nothing of the
/// graph is lost, and nothing but the hash and what follows it is left out.
pub proof fn lemma_chunk_is_parsed(
    before: Seq<char>,
    hash: Seq<char>,
    after: Seq<char>,
    chunk: Seq<Seq<char>>,
)
    requires
        chunk.len() > 0,
        chunk[0] == before + hash + after,
        forall|i: int| 0 <= i < before.len() ==> !hash_char(#[trigger] before[i]),
        forall|i: int|
            0 <= i < hash.len() ==> '0' <= #[trigger] hash[i] <= '9' || 'a' <= hash[i] <= 'z',
        forall|i: int| 0 <= i < after.len() ==> !hash_char(#[trigger] after[i]),
        hash.len() >= 40,
    ensures
        has_one_hash(chunk),
        parsed_chunk(chunk).0 == hash,
        parsed_chunk(chunk).1.len() == chunk.len(),
        parsed_chunk(chunk).1[0] == before,
        forall|i: int|
            0 < i < chunk.len() ==> #[trigger] parsed_chunk(chunk).1[i] == chunk[i],
{
    lemma_hash_is_found(before, hash, after);
}

/// In a line with vertical lines in place of other marks there are no other
/// marks, and nothing else has changed.
pub proof fn lemma_verticals(s: Seq<char>, i: int)
    requires
        0 <= i < s.len(),
    ensures
        verticals(s).len() == s.len(),
        s[i] == '*' || s[i] == '/' || s[i] == '\\' ==> verticals(s)[i] == '|',
        s[i] != '*' && s[i] != '/' && s[i] != '\\' ==> verticals(s)[i] == s[i],
{
}

/// Every chunk but the first starts with the line of a commit.
pub proof fn lemma_chunks_start_with_commits(lines: Seq<Seq<char>>, k: int)
    requires
        0 < k < raw_chunks(lines).len(),
    ensures
        raw_chunks(lines)[k].len() > 0,
        raw_chunks(lines)[k][0].contains('*'),
{
    lemma_divided_at_commits(lines);
}

/// Every chunk but the first, complete or not, starts with the line of a
/// commit.
proof fn lemma_divided_at_commits(lines: Seq<Seq<char>>)
    ensures
        ({
            let (done, current) = divided(lines);
            &&& forall|k: int| 0 < k < done.len() ==> (#[trigger] done[k]).len() > 0 && done[k][0].contains('*')
            &&& done.len() > 0 ==> current.len() > 0 && current[0].contains('*')
        }),
    decreases lines.len(),
{
    if lines.len() > 0 {
        lemma_divided_at_commits(lines.drop_last());
    }
}

/// The information about a commit is all that follows the first space of its
/// part, and its hash is what comes before it.
pub proof fn lemma_info_entry(hash: Seq<char>, info: Seq<char>)
    requires
        forall|i: int| 0 <= i < hash.len() ==> !strings::is_space(#[trigger] hash[i]),
    ensures
        (hash.push(' ') + info).contains(' '),
        info_entry(hash.push(' ') + info) == (hash, info),
{
    let part = hash.push(' ') + info;
    assert(part[hash.len() as int] == ' ');
    assert forall|i: int| 0 <= i < hash.len() implies part[i] != ' ' by {
        assert(part[i] == hash[i]);
    }
    part.index_of_first_ensures(' ');
    let k = part.index_of_first(' ')->0;
    assert(part.index_of_first(' ') is Some);
    assert(part[k] == ' ');
    if k > hash.len() {
        assert(part.take(k)[hash.len() as int] == ' ');
    }
    assert(k == hash.len());
    assert(part.take(k) =~= hash);
    assert(part.skip(k + 1) =~= info);
    strings::lemma_nothing_to_trim(hash);
}

/// The information about a commit is that of its last part, and there is none
/// about a commit without a part.
pub proof fn lemma_info_map(parts: Seq<Seq<char>>, k: int, hash: Seq<char>)
    requires
        0 <= k < parts.len(),
    ensures
        (forall|i: int|
            k < i < parts.len() ==> info_entry(#[trigger] parts[i]).0 != info_entry(parts[k]).0)
            ==> info_map(parts).dom().contains(info_entry(parts[k]).0) && info_map(
            parts,
        )[info_entry(parts[k]).0] == info_entry(parts[k]).1,
        (forall|i: int| 0 <= i < parts.len() ==> info_entry(#[trigger] parts[i]).0 != hash)
            ==> !info_map(parts).dom().contains(hash),
    decreases parts.len(),
{
    reveal_with_fuel(info_map, 2);
    let rest = parts.drop_last();
    assert(parts.last() == parts[parts.len() - 1]);
    if rest.len() > 0 {
        if k < rest.len() {
            lemma_info_map(rest, k, hash);
            assert(rest[k] == parts[k]);
        } else {
            lemma_info_map(rest, 0, hash);
        }
    }
    if forall|i: int| 0 <= i < parts.len() ==> info_entry(#[trigger] parts[i]).0 != hash {
        assert forall|i: int| 0 <= i < rest.len() implies info_entry(#[trigger] rest[i]).0
            != hash by {
            assert(rest[i] == parts[i]);
        }
    }
}

/// The parts that git wrote, each with a NUL at its end, are the parts that are
/// read.
pub proof fn lemma_info_parts(parts: Seq<Seq<char>>)
    requires
        parts.len() > 0,
        forall|i: int| 0 <= i < parts.len() ==> !(#[trigger] parts[i]).contains('\0'),
        parts[0].len() > 0,
        !strings::is_space(parts[0][0]),
    ensures
        info_parts(strings::joined(parts, seq!['\0']).push('\0')) == parts,
{
    let body = strings::joined(parts, seq!['\0']);
    let raw = body.push('\0');
    lemma_joined_first(parts, seq!['\0']);
    assert(raw[0] == parts[0][0]);
    strings::lemma_nothing_to_trim(raw);
    assert(raw.drop_last() =~= body);
    strings::lemma_joined_pieces(parts, '\0');
}

/// Pieces that are put together start with the first of them.
proof fn lemma_joined_first(parts: Seq<Seq<char>>, sep: Seq<char>)
    requires
        parts.len() > 0,
        parts[0].len() > 0,
    ensures
        strings::joined(parts, sep).len() > 0,
        strings::joined(parts, sep)[0] == parts[0][0],
    decreases parts.len(),
{
    if parts.len() > 1 {
        lemma_joined_first(parts.drop_last(), sep);
    }
}

/// The rows for a commit are its lines of information, with or without a line
/// feed after the last of them, and an empty one below them.
pub proof fn lemma_info_rows(rows: Seq<Seq<char>>)
    requires
        rows.len() > 0,
        forall|i: int| 0 <= i < rows.len() ==> !(#[trigger] rows[i]).contains('\n'),
    ensures
        info_rows(strings::joined(rows, seq!['\n']).push('\n')) == rows.push(Seq::empty()),
        rows.last().len() > 0 ==> info_rows(strings::joined(rows, seq!['\n'])) == rows.push(
            Seq::empty(),
        ),
{
    let text = strings::joined(rows, seq!['\n']);
    strings::lemma_joined_pieces(rows, '\n');
    assert(text.push('\n').drop_last() =~= text);
    if rows.last().len() > 0 {
        let last = rows[rows.len() - 1];
        assert(text.last() == last.last());
        assert(last.contains(last.last())) by {
            assert(last[last.len() - 1] == last.last());
        }
    }
}

/// The graph and the information of a commit stand side by side: every line of
/// the graph is there, in order, and so is every line of the information, and
/// there are no more rows than the longer of the two has. Below the line of the
/// commit the graph is stretched by vertical lines only.
pub proof fn lemma_laid_out(chunk: Seq<Seq<char>>, info: Seq<char>, i: int)
    requires
        chunk.len() > 0,
    ensures
        ({
            let rows = info_rows(info);
            let out = laid_out(chunk, info);
            let more = out.len() - chunk.len();
            &&& out.len() == (if rows.len() > chunk.len() {
                rows.len()
            } else {
                chunk.len()
            })
            &&& 0 <= i < rows.len() ==> crate::job::ends_with(out[i], rows[i])
            &&& i == 0 ==> chunk[0].is_prefix_of(out[0])
            &&& 0 < i <= more ==> verticals(chunk[0]).is_prefix_of(out[i])
            &&& 0 < i < chunk.len() ==> chunk[i].is_prefix_of(out[i + more])
            &&& rows.len() <= i < out.len() ==> exists|j: int|
                0 <= j < chunk.len() && out[i] == #[trigger] chunk[j]
        }),
{
    let rows = info_rows(info);
    let out = laid_out(chunk, info);
    let more = out.len() - chunk.len();
    if 0 <= i < out.len() {
        let row = graph_row(chunk, rows.len(), i);
        if i < rows.len() {
            assert(out[i].skip(out[i].len() - rows[i].len()) =~= rows[i]);
        } else {
            assert(out[i] =~= row);
            if i == 0 {
                assert(out[i] == chunk[0]);
            } else {
                assert(out[i] == chunk[i - more]);
            }
        }
        assert(row =~= out[i].take(row.len() as int));
    }
    if 0 < i < chunk.len() {
        let k = i + more;
        let row = graph_row(chunk, rows.len(), k);
        assert(row =~= out[k].take(row.len() as int));
    }
}

/// The rows of a commit stand below those of the commits before it, and all of
/// them are there.
pub proof fn lemma_rows_of_commit(
    chunks: Seq<(Seq<char>, Seq<Seq<char>>)>,
    info: Map<Seq<char>, Seq<char>>,
    k: int,
)
    requires
        0 <= k < chunks.len(),
    ensures
        ({
            let start = all_rows(chunks.take(k), info).len() as int;
            let own = laid_out(chunks[k].1, info[chunks[k].0]);
            &&& start + own.len() <= all_rows(chunks, info).len()
            &&& all_rows(chunks, info).subrange(start, start + own.len()) == own
            &&& k == chunks.len() - 1 ==> start + own.len() == all_rows(chunks, info).len()
            &&& k == 0 ==> start == 0
        }),
    decreases chunks.len(),
{
    let rest = chunks.drop_last();
    let all = all_rows(chunks, info);
    let start = all_rows(chunks.take(k), info).len() as int;
    let own = laid_out(chunks[k].1, info[chunks[k].0]);
    if k < rest.len() {
        lemma_rows_of_commit(rest, info, k);
        assert(rest.take(k) =~= chunks.take(k));
        assert(all.subrange(start, start + own.len()) =~= all_rows(rest, info).subrange(
            start,
            start + own.len(),
        ));
    } else {
        assert(chunks.take(k) =~= rest);
        assert(all.subrange(start, start + own.len()) =~= own);
    }
}

/// The status of a commit goes to the row right below its information, which has
/// no information in it.
pub proof fn lemma_status_below_information(
    chunks: Seq<(Seq<char>, Seq<Seq<char>>)>,
    info: Map<Seq<char>, Seq<char>>,
    rows: Seq<Seq<char>>,
    k: int,
)
    requires
        0 <= k < chunks.len(),
        chunks[k].1.len() > 0,
        rows.len() > 0,
        forall|i: int| 0 <= i < rows.len() ==> !(#[trigger] rows[i]).contains('\n'),
        info[chunks[k].0] == strings::joined(rows, seq!['\n']).push('\n'),
        all_rows(chunks, info).len() <= usize::MAX,
    ensures
        status_rows(chunks, info).dom().contains(
            (all_rows(chunks.take(k), info).len() + rows.len()) as usize,
        ),
        status_rows(chunks, info)[(all_rows(chunks.take(k), info).len() + rows.len()) as usize]
            == chunks[k].0,
{
    lemma_status_rows(chunks, info, k);
    lemma_info_rows(rows);
    assert(chunks.take(k + 1).drop_last() =~= chunks.take(k));
    assert(chunks.take(k + 1).last() == chunks[k]);
}

/// A message about a chunk says how many hashes were found in it, and one about
/// a commit names it.
pub proof fn lemma_graph_message(e: GraphError)
    ensures
        e matches GraphError::BadChunk { matches, chunk } ==> ("matched "@ + strings::decimal(
            matches as int,
        )).is_prefix_of(e.message()),
        e matches GraphError::MissingInfo(hash) ==> strings::has_part(
            e.message(),
            strings::debug_text(hash@),
        ),
{
    let s = e.message();
    match e {
        GraphError::BadChunk { matches, chunk } => {
            let front = "matched "@ + strings::decimal(matches as int);
            assert(s.take(front.len() as int) =~= front);
        },
        GraphError::MissingInfo(hash) => {
            let part = strings::debug_text(hash@);
            let m = ("missing commit info for "@ + "CommitHash("@).len() as int;
            assert(s.subrange(m, m + part.len()) =~= part);
        },
        _ => {},
    }
}

/// Every line of a graph with something in it is in a chunk, and every line of a
/// chunk is one of the graph with something in it.
pub proof fn lemma_no_line_is_lost(lines: Seq<Seq<char>>, line: Seq<char>)
    ensures
        chunk_lines(raw_chunks(lines)).contains(line) <==> lines.contains(line) && line.len() > 0,
{
    lemma_chunks_keep_lines(lines);
    lemma_filtered_lines(lines, line);
}

/// What is left of some lines without the empty ones.
proof fn lemma_filtered_lines(lines: Seq<Seq<char>>, line: Seq<char>)
    ensures
        lines.filter(not_empty()).contains(line) <==> lines.contains(line) && line.len() > 0,
    decreases lines.len(),
{
    reveal(Seq::filter);
    if lines.len() > 0 {
        let rest = lines.drop_last();
        let last = lines.last();
        lemma_filtered_lines(rest, line);
        assert(lines =~= rest.push(last));
        assert(lines.contains(line) <==> rest.contains(line) || line == last) by {
            if rest.contains(line) {
                assert(lines[rest.index_of(line)] == line);
            }
            if line == last {
                assert(lines[lines.len() - 1] == line);
            }
        }
        let kept = rest.filter(not_empty());
        if last.len() > 0 {
            assert(lines.filter(not_empty()) =~= kept.push(last));
            assert(kept.push(last).contains(line) <==> kept.contains(line) || line == last) by {
                if kept.contains(line) {
                    assert(kept.push(last)[kept.index_of(line)] == line);
                }
                assert(kept.push(last)[kept.len() as int] == last);
            }
        } else {
            assert(lines.filter(not_empty()) =~= kept);
        }
    }
}

} // verus!
