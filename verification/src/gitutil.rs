//! Git plumbing for diff modes. The library decides which `git` invocation each
//! operation needs and what its output means; running the process is the caller's.
//! Every operation here takes what `git` printed as a [`GitOutput`].

use vstd::prelude::*;

use crate::text::{
    join, joined, lemma_split_last, lemma_split_nonempty, lemma_split_step, lossy_text, owned,
    parse_unsigned, parse_unsigned_str, split_on_char, split_seq, str_eq, trim, trim_end, trimmed,
    trimmed_end, utf8_lossy, utf8_text, views,
};
use vstd::utf8::{decode_utf8, valid_utf8};

verus! {

/// A git operation that failed, with the message to show.
#[derive(Debug)]
pub struct GitError(pub String);

/// What running one `git` invocation produced.
#[derive(Debug, Clone)]
pub enum GitOutput {
    /// The process could not be started; the operating system's reason.
    SpawnFailed(String),
    /// The process ran to completion.
    Exited { success: bool, stdout: Vec<u8>, stderr: Vec<u8> },
}

/// The textual outcome of a git invocation whose output is one trimmed string.
#[verifier::opaque]
pub open spec fn run_outcome(args: Seq<Seq<char>>, out: GitOutput) -> Result<Seq<char>, Seq<char>> {
    match out {
        GitOutput::SpawnFailed(e) => Err(
            "failed to run `git "@ + joined(args, " "@) + "`: "@ + e@,
        ),
        GitOutput::Exited { success, stdout, stderr } => if !success {
            let err = trimmed(utf8_lossy(stderr@));
            if err.len() == 0 {
                Err("`git "@ + joined(args, " "@) + "` failed"@)
            } else {
                Err(err)
            }
        } else {
            Ok(trimmed(utf8_lossy(stdout@)))
        },
    }
}

/// Whether a result matches a textual outcome.
pub open spec fn matches_outcome(r: Result<String, GitError>, o: Result<Seq<char>, Seq<char>>) -> bool {
    match (r, o) {
        (Ok(s), Ok(t)) => s@ == t,
        (Err(e), Err(t)) => e.0@ == t,
        _ => false,
    }
}

/// Interprets one invocation's output: the trimmed standard output on success; on
/// failure the trimmed standard error, or a message naming the command when git
/// printed none.
pub fn interpret_run(args: &Vec<String>, out: &GitOutput) -> (r: Result<String, GitError>)
    ensures
        matches_outcome(r, run_outcome(views(args@), *out)),
{
    reveal(run_outcome);
    match out {
        GitOutput::SpawnFailed(e) => {
            let mut m = owned("failed to run `git ");
            let j = join(args, " ");
            m.append(j.as_str());
            m.append("`: ");
            m.append(e.as_str());
            Err(GitError(m))
        },
        GitOutput::Exited { success, stdout, stderr } => {
            if !*success {
                let text = lossy_text(stderr.as_slice());
                let err = trim(text.as_str());
                if err.as_str().unicode_len() == 0 {
                    let mut m = owned("`git ");
                    let j = join(args, " ");
                    m.append(j.as_str());
                    m.append("` failed");
                    Err(GitError(m))
                } else {
                    Err(GitError(err))
                }
            } else {
                let text = lossy_text(stdout.as_slice());
                Ok(trim(text.as_str()))
            }
        },
    }
}

fn strings4(a: &str, b: &str, c: &str, d: &str) -> (r: Vec<String>)
    ensures
        views(r@) == seq![a@, b@, c@, d@],
{
    let mut v: Vec<String> = Vec::new();
    v.push(owned(a));
    v.push(owned(b));
    v.push(owned(c));
    v.push(owned(d));
    proof {
        assert(views(v@) =~= seq![a@, b@, c@, d@]);
    }
    v
}

fn strings5(a: &str, b: &str, c: &str, d: &str, e: &str) -> (r: Vec<String>)
    ensures
        views(r@) == seq![a@, b@, c@, d@, e@],
{
    let mut v: Vec<String> = Vec::new();
    v.push(owned(a));
    v.push(owned(b));
    v.push(owned(c));
    v.push(owned(d));
    v.push(owned(e));
    proof {
        assert(views(v@) =~= seq![a@, b@, c@, d@, e@]);
    }
    v
}

/// `git -C <start> rev-parse --show-toplevel`.
pub fn repo_root_args(start: &str) -> (r: Vec<String>)
    ensures
        views(r@) == seq!["-C"@, start@, "rev-parse"@, "--show-toplevel"@],
{
    strings4("-C", start, "rev-parse", "--show-toplevel")
}

/// The repository root containing `start`, from what
/// `git -C <start> rev-parse --show-toplevel` printed.
pub fn repo_root(start: &str, out: &GitOutput) -> (r: Result<String, GitError>)
    ensures
        matches_outcome(
            r,
            run_outcome(seq!["-C"@, start@, "rev-parse"@, "--show-toplevel"@], *out),
        ),
{
    interpret_run(&repo_root_args(start), out)
}

/// `git -C <root> rev-parse <refname>`.
pub fn rev_parse_args(repo_root: &str, refname: &str) -> (r: Vec<String>)
    ensures
        views(r@) == seq!["-C"@, repo_root@, "rev-parse"@, refname@],
{
    strings4("-C", repo_root, "rev-parse", refname)
}

/// The object `refname` names, from what `git -C <root> rev-parse <refname>` printed.
pub fn rev_parse(repo_root: &str, refname: &str, out: &GitOutput) -> (r: Result<String, GitError>)
    ensures
        matches_outcome(r, run_outcome(seq!["-C"@, repo_root@, "rev-parse"@, refname@], *out)),
{
    interpret_run(&rev_parse_args(repo_root, refname), out)
}

/// `git -C <root> merge-base <a> <b>`.
pub fn merge_base_args(repo_root: &str, a: &str, b: &str) -> (r: Vec<String>)
    ensures
        views(r@) == seq!["-C"@, repo_root@, "merge-base"@, a@, b@],
{
    strings5("-C", repo_root, "merge-base", a, b)
}

/// The best common ancestor of `a` and `b`, from what
/// `git -C <root> merge-base <a> <b>` printed.
pub fn merge_base(repo_root: &str, a: &str, b: &str, out: &GitOutput) -> (r: Result<
    String,
    GitError,
>)
    ensures
        matches_outcome(r, run_outcome(seq!["-C"@, repo_root@, "merge-base"@, a@, b@], *out)),
{
    interpret_run(&merge_base_args(repo_root, a, b), out)
}

/// `git -C <root> write-tree`.
pub fn write_tree_args(repo_root: &str) -> (r: Vec<String>)
    ensures
        views(r@) == seq!["-C"@, repo_root@, "write-tree"@],
{
    let mut v: Vec<String> = Vec::new();
    v.push(owned("-C"));
    v.push(owned(repo_root));
    v.push(owned("write-tree"));
    proof {
        assert(views(v@) =~= seq!["-C"@, repo_root@, "write-tree"@]);
    }
    v
}

/// The tree object for the index as it stands, from what
/// `git -C <root> write-tree` printed.
pub fn write_tree(repo_root: &str, out: &GitOutput) -> (r: Result<String, GitError>)
    ensures
        matches_outcome(r, run_outcome(seq!["-C"@, repo_root@, "write-tree"@], *out)),
{
    interpret_run(&write_tree_args(repo_root), out)
}

/// One blob of a recursively listed tree: repo-relative path (raw bytes), blob id,
/// and file mode.
#[derive(Debug, Clone)]
pub struct TreeEntry {
    pub path: Vec<u8>,
    pub sha: String,
    pub mode: u32,
}

/// A tree entry as plain values: `(path, sha, mode)`.
pub open spec fn entry_view(e: TreeEntry) -> (Seq<u8>, Seq<char>, u32) {
    (e.path@, e.sha@, e.mode)
}

/// What one NUL-terminated `git ls-tree -z` record (`<mode> <type> <sha>\t<path>`)
/// contributes: `None` to skip it (an empty record, or an entry that is not a blob),
/// an entry, or the message of a malformed record.
#[verifier::opaque]
pub open spec fn record_outcome(rec: Seq<u8>) -> Option<Result<(Seq<u8>, Seq<char>, u32), Seq<char>>> {
    if rec.len() == 0 {
        None
    } else {
        match crate::text::first_index(rec, 9u8) {
            None => Some(Err("malformed `git ls-tree -z` record (no tab)"@)),
            Some(t) => {
                let meta = rec.take(t);
                if !valid_utf8(meta) {
                    Some(Err("malformed `git ls-tree -z` record (non-UTF-8 header)"@))
                } else {
                    let m = decode_utf8(meta);
                    let f = split_seq(m, ' ');
                    if f.len() < 3 {
                        Some(Err("malformed `git ls-tree -z` record: "@ + m))
                    } else if f[1] != "blob"@ {
                        None
                    } else {
                        match parse_unsigned(f[0], 0xffff_ffff) {
                            None => Some(Err("malformed ls-tree mode: "@ + f[0])),
                            Some(v) => Some(Ok((rec.skip(t + 1), f[2], v as u32))),
                        }
                    }
                }
            },
        }
    }
}

/// The records in order: the blob entries, or the first malformed record's message.
pub open spec fn parse_records(recs: Seq<Seq<u8>>) -> Result<Seq<(Seq<u8>, Seq<char>, u32)>, Seq<char>>
    decreases recs.len(),
{
    if recs.len() == 0 {
        Ok(Seq::empty())
    } else {
        match parse_records(recs.drop_last()) {
            Err(e) => Err(e),
            Ok(prefix) => match record_outcome(recs.last()) {
                None => Ok(prefix),
                Some(Ok(e)) => Ok(prefix.push(e)),
                Some(Err(m)) => Err(m),
            },
        }
    }
}

/// What `git ls-tree -r -z <treeish>`'s output means: its NUL-separated records parsed.
pub open spec fn ls_tree_outcome(treeish: Seq<char>, out: GitOutput) -> Result<Seq<(Seq<u8>, Seq<char>, u32)>, Seq<char>> {
    match out {
        GitOutput::SpawnFailed(e) => Err("failed to run `git ls-tree`: "@ + e@),
        GitOutput::Exited { success, stdout, stderr } => if !success {
            let err = trimmed(utf8_lossy(stderr@));
            if err.len() == 0 {
                Err("`git ls-tree "@ + treeish + "` failed"@)
            } else {
                Err(err)
            }
        } else {
            parse_records(split_seq(stdout@, 0u8))
        },
    }
}

pub open spec fn entries_match(r: Result<Vec<TreeEntry>, GitError>, o: Result<Seq<(Seq<u8>, Seq<char>, u32)>, Seq<char>>) -> bool {
    match (r, o) {
        (Ok(v), Ok(es)) => v@.map_values(|e: TreeEntry| entry_view(e)) == es,
        (Err(e), Err(m)) => e.0@ == m,
        _ => false,
    }
}

/// One record, parsed.
pub enum LsTreeRecord {
    Skip,
    Entry(TreeEntry),
    Malformed(String),
}

pub open spec fn record_matches(r: LsTreeRecord, o: Option<Result<(Seq<u8>, Seq<char>, u32), Seq<char>>>) -> bool {
    match (r, o) {
        (LsTreeRecord::Skip, None) => true,
        (LsTreeRecord::Entry(e), Some(Ok(v))) => entry_view(e) == v,
        (LsTreeRecord::Malformed(m), Some(Err(t))) => m@ == t,
        _ => false,
    }
}

fn first_byte_index(s: &[u8], start: usize, b: u8) -> (r: usize)
    requires
        start <= s@.len(),
    ensures
        start <= r <= s@.len(),
        forall|j: int| start <= j < r ==> #[trigger] s@[j] != b,
        r < s@.len() ==> s@[r as int] == b,
{
    let mut i = start;
    while i < s.len() && s[i] != b
        invariant
            start <= i <= s@.len(),
            forall|j: int| start <= j < i ==> #[trigger] s@[j] != b,
        decreases s@.len() - i,
    {
        i = i + 1;
    }
    i
}

/// Parses one `git ls-tree -z` record.
pub fn parse_ls_tree_record(rec: &[u8]) -> (r: LsTreeRecord)
    ensures
        record_matches(r, record_outcome(rec@)),
{
    reveal(record_outcome);
    if rec.len() == 0 {
        return LsTreeRecord::Skip;
    }
    let ghost fo = crate::text::first_index(rec@, 9u8);
    let tab = first_byte_index(rec, 0, 9u8);
    proof {
        crate::text::lemma_first_index(rec@, 9u8);
        let fi = crate::text::first_index(rec@, 9u8);
        if tab < rec@.len() {
            assert(fi is Some);
            assert(fi->0 == tab) by {
                if fi->0 < tab {
                    assert(rec@[fi->0] != 9u8);
                }
            }
        } else {
            assert(fi is None);
        }
    }
    if tab == rec.len() {
        return LsTreeRecord::Malformed(owned("malformed `git ls-tree -z` record (no tab)"));
    }
    let meta_bytes = vstd::slice::slice_subrange(rec, 0, tab);
    proof {
        assert(meta_bytes@ =~= rec@.take(tab as int));
    }
    let meta = match utf8_text(meta_bytes) {
        None => {
            return LsTreeRecord::Malformed(
                owned("malformed `git ls-tree -z` record (non-UTF-8 header)"),
            );
        },
        Some(m) => m,
    };
    let fields = split_on_char(meta.as_str(), ' ');
    proof {
        assert(fo == Some(tab as int));
        assert(meta@ == decode_utf8(rec@.take(tab as int)));
        assert(views(fields@) == split_seq(meta@, ' '));
        assert(views(fields@).len() == fields@.len());
    }
    if fields.len() < 3 {
        let mut m = owned("malformed `git ls-tree -z` record: ");
        m.append(meta.as_str());
        return LsTreeRecord::Malformed(m);
    }
    proof {
        assert(views(fields@)[1] == fields@[1]@);
        assert(views(fields@)[0] == fields@[0]@);
        assert(views(fields@)[2] == fields@[2]@);
    }
    if !str_eq(fields[1].as_str(), "blob") {
        return LsTreeRecord::Skip;
    }
    match parse_unsigned_str(fields[0].as_str(), 0xffff_ffff) {
        None => {
            let mut m = owned("malformed ls-tree mode: ");
            m.append(fields[0].as_str());
            LsTreeRecord::Malformed(m)
        },
        Some(v) => {
            let path_bytes = vstd::slice::slice_subrange(rec, tab + 1, rec.len());
            let path = vstd::slice::slice_to_vec(path_bytes);
            proof {
                assert(path@ =~= rec@.skip(tab + 1));
                let pv = parse_unsigned(fields@[0]@, 0xffff_ffff);
                assert(pv is Some);
                assert(pv->0 <= 0xffff_ffff);
                assert(v as int == pv->0);
            }
            LsTreeRecord::Entry(TreeEntry { path, sha: owned(fields[2].as_str()), mode: v as u32 })
        },
    }
}

/// Parses `git ls-tree -r -z` output: every blob entry, recursively, in listing order;
/// a malformed record is an error.
pub fn parse_ls_tree_output(stdout: &[u8]) -> (r: Result<Vec<TreeEntry>, GitError>)
    ensures
        entries_match(r, parse_records(split_seq(stdout@, 0u8))),
{
    let n = stdout.len();
    let mut entries: Vec<TreeEntry> = Vec::new();
    let mut start: usize = 0;
    let ghost mut done: Seq<Seq<u8>> = Seq::empty();
    proof {
        assert(stdout@.skip(0) =~= stdout@);
        assert(done + split_seq(stdout@.skip(0), 0u8) =~= split_seq(stdout@, 0u8));
        assert(entries@.map_values(|e: TreeEntry| entry_view(e)) =~= Seq::<(Seq<u8>, Seq<char>, u32)>::empty());
    }
    loop
        invariant
            n == stdout@.len(),
            start <= n,
            split_seq(stdout@, 0u8) == done + split_seq(stdout@.skip(start as int), 0u8),
            parse_records(done) == Ok::<Seq<(Seq<u8>, Seq<char>, u32)>, Seq<char>>(
                entries@.map_values(|e: TreeEntry| entry_view(e)),
            ),
        decreases n - start,
    {
        let end = first_byte_index(stdout, start, 0u8);
        let rec = vstd::slice::slice_subrange(stdout, start, end);
        let parsed = parse_ls_tree_record(rec);
        let ghost before = entries@;
        proof {
            assert(done.push(rec@).drop_last() =~= done);
            assert(done.push(rec@).last() == rec@);
        }
        match parsed {
            LsTreeRecord::Skip => {},
            LsTreeRecord::Entry(e) => {
                entries.push(e);
                proof {
                    assert(entries@.map_values(|e: TreeEntry| entry_view(e)) =~= before.map_values(
                        |e: TreeEntry| entry_view(e),
                    ).push(entry_view(entries@.last())));
                }
            },
            LsTreeRecord::Malformed(m) => {
                proof {
                    if end < n {
                        lemma_split_step(stdout@, start as int, end as int, 0u8);
                        lemma_prefix_error(done.push(rec@), split_seq(stdout@.skip(end + 1), 0u8));
                        assert(done + (seq![rec@] + split_seq(stdout@.skip(end + 1), 0u8)) =~= done.push(
                            rec@,
                        ) + split_seq(stdout@.skip(end + 1), 0u8));
                    } else {
                        lemma_split_last(stdout@, start as int, 0u8);
                        assert(stdout@.skip(start as int) =~= rec@);
                        assert(done + seq![rec@] =~= done.push(rec@));
                    }
                }
                return Err(GitError(m));
            },
        }
        if end == n {
            proof {
                lemma_split_last(stdout@, start as int, 0u8);
                assert(stdout@.skip(start as int) =~= rec@);
                assert(done + seq![rec@] =~= done.push(rec@));
            }
            return Ok(entries);
        }
        proof {
            lemma_split_step(stdout@, start as int, end as int, 0u8);
            assert(done + (seq![rec@] + split_seq(stdout@.skip(end + 1), 0u8)) =~= done.push(rec@)
                + split_seq(stdout@.skip(end + 1), 0u8));
            done = done.push(rec@);
        }
        start = end + 1;
    }
}

/// Once a prefix of the records is malformed, so is the whole listing, with that
/// prefix's message.
pub proof fn lemma_prefix_error(pre: Seq<Seq<u8>>, post: Seq<Seq<u8>>)
    requires
        parse_records(pre) is Err,
    ensures
        parse_records(pre + post) == parse_records(pre),
    decreases post.len(),
{
    if post.len() > 0 {
        lemma_prefix_error(pre, post.drop_last());
        assert((pre + post).drop_last() =~= pre + post.drop_last());
    } else {
        assert(pre + post =~= pre);
    }
}

/// `git -C <root> ls-tree -r -z <treeish>`.
pub fn ls_tree_args(repo_root: &str, treeish: &str) -> (r: Vec<String>)
    ensures
        views(r@) == seq!["-C"@, repo_root@, "ls-tree"@, "-r"@, "-z"@, treeish@],
{
    let mut v: Vec<String> = Vec::new();
    v.push(owned("-C"));
    v.push(owned(repo_root));
    v.push(owned("ls-tree"));
    v.push(owned("-r"));
    v.push(owned("-z"));
    v.push(owned(treeish));
    proof {
        assert(views(v@) =~= seq!["-C"@, repo_root@, "ls-tree"@, "-r"@, "-z"@, treeish@]);
    }
    v
}

/// Every blob in the tree `treeish`, recursively, from what
/// `git ls-tree -r -z <treeish>` printed.
pub fn ls_tree(treeish: &str, out: &GitOutput) -> (r: Result<Vec<TreeEntry>, GitError>)
    ensures
        entries_match(r, ls_tree_outcome(treeish@, *out)),
{
    match out {
        GitOutput::SpawnFailed(e) => {
            let mut m = owned("failed to run `git ls-tree`: ");
            m.append(e.as_str());
            Err(GitError(m))
        },
        GitOutput::Exited { success, stdout, stderr } => {
            if !*success {
                let text = lossy_text(stderr.as_slice());
                let err = trim(text.as_str());
                if err.as_str().unicode_len() == 0 {
                    let mut m = owned("`git ls-tree ");
                    m.append(treeish);
                    m.append("` failed");
                    Err(GitError(m))
                } else {
                    Err(GitError(err))
                }
            } else {
                parse_ls_tree_output(stdout.as_slice())
            }
        },
    }
}

/// One response line of `git cat-file --batch`: everything up to and including the
/// next newline, or the rest of the stream when no newline follows.
pub open spec fn line_len(s: Seq<u8>) -> int {
    match crate::text::first_index(s, 10u8) {
        Some(k) => k + 1,
        None => s.len() as int,
    }
}

pub open spec fn ends_with(s: Seq<char>, suffix: Seq<char>) -> bool {
    s.len() >= suffix.len() && s.skip(s.len() - suffix.len()) == suffix
}

/// Prefixes one result to an outcome, keeping an error as it is.
pub open spec fn prepend_blob(x: Option<Seq<u8>>, rest: Result<Seq<Option<Seq<u8>>>, Seq<char>>) -> Result<Seq<Option<Seq<u8>>>, Seq<char>> {
    match rest {
        Ok(t) => Ok(seq![x] + t),
        Err(e) => Err(e),
    }
}

/// What the `n` responses at the front of a `git cat-file --batch` output mean: per
/// request the blob's content, or `None` where git reports it missing (or the
/// stream has ended); a malformed header or a truncated blob is an error.
#[verifier::opaque]
pub open spec fn batch_outcome(s: Seq<u8>, n: nat) -> Result<Seq<Option<Seq<u8>>>, Seq<char>>
    decreases n,
{
    if n == 0 {
        Ok(Seq::empty())
    } else {
        let line = s.take(line_len(s));
        let rest = s.skip(line_len(s));
        if !valid_utf8(line) {
            Err("reading `git cat-file --batch` output: stream did not contain valid UTF-8"@)
        } else {
            let header = trimmed_end(decode_utf8(line));
            if header.len() == 0 || ends_with(header, " missing"@) {
                prepend_blob(None, batch_outcome(rest, (n - 1) as nat))
            } else {
                match parse_unsigned(split_seq(header, ' ').last(), usize::MAX as int) {
                    None => Err("malformed cat-file header: "@ + header),
                    Some(size) => if rest.len() < size {
                        Err("reading blob content: failed to fill whole buffer"@)
                    } else if rest.len() < size + 1 {
                        Err("reading blob terminator: failed to fill whole buffer"@)
                    } else {
                        prepend_blob(
                            Some(rest.take(size)),
                            batch_outcome(rest.skip(size + 1), (n - 1) as nat),
                        )
                    },
                }
            }
        }
    }
}

/// One response read off the front of `s`: where the next response starts and what
/// this one holds, or the error reading it.
pub open spec fn batch_step(s: Seq<u8>) -> Result<(int, Option<Seq<u8>>), Seq<char>> {
    let line = s.take(line_len(s));
    let rest = s.skip(line_len(s));
    if !valid_utf8(line) {
        Err("reading `git cat-file --batch` output: stream did not contain valid UTF-8"@)
    } else {
        let header = trimmed_end(decode_utf8(line));
        if header.len() == 0 || ends_with(header, " missing"@) {
            Ok((line_len(s), None))
        } else {
            match parse_unsigned(split_seq(header, ' ').last(), usize::MAX as int) {
                None => Err("malformed cat-file header: "@ + header),
                Some(size) => if rest.len() < size {
                    Err("reading blob content: failed to fill whole buffer"@)
                } else if rest.len() < size + 1 {
                    Err("reading blob terminator: failed to fill whole buffer"@)
                } else {
                    Ok((line_len(s) + size + 1, Some(rest.take(size))))
                },
            }
        }
    }
}

pub proof fn lemma_batch_unfold(s: Seq<u8>, n: nat)
    requires
        n > 0,
        0 <= line_len(s) <= s.len(),
    ensures
        batch_outcome(s, n) == match batch_step(s) {
            Err(e) => Err(e),
            Ok((next, x)) => prepend_blob(x, batch_outcome(s.skip(next), (n - 1) as nat)),
        },
{
    reveal(batch_outcome);
    let line = s.take(line_len(s));
    let rest = s.skip(line_len(s));
    if valid_utf8(line) {
        let header = trimmed_end(decode_utf8(line));
        if !(header.len() == 0 || ends_with(header, " missing"@)) {
            crate::text::lemma_parse_unsigned_range(split_seq(header, ' ').last(), usize::MAX as int);
            match parse_unsigned(split_seq(header, ' ').last(), usize::MAX as int) {
                Some(size) => {
                    if rest.len() >= size + 1 {
                        assert(rest.skip(size + 1) =~= s.skip(line_len(s) + size + 1));
                    }
                },
                None => {},
            }
        }
    }
}

pub open spec fn blobs_match(r: Result<Vec<Option<Vec<u8>>>, GitError>, o: Result<Seq<Option<Seq<u8>>>, Seq<char>>) -> bool {
    match (r, o) {
        (Ok(v), Ok(t)) => v@.len() == t.len() && forall|i: int|
            0 <= i < t.len() ==> match (#[trigger] v@[i], t[i]) {
                (Some(a), Some(b)) => a@ == b,
                (None, None) => true,
                _ => false,
            },
        (Err(e), Err(m)) => e.0@ == m,
        _ => false,
    }
}

/// Whether `s` ends with `" missing"`.
fn ends_with_missing(s: &str) -> (r: bool)
    ensures
        r == ends_with(s@, " missing"@),
{
    let n = s.unicode_len();
    let suffix = " missing";
    proof {
        reveal_strlit(" missing");
    }
    if n < 8 {
        return false;
    }
    let tail = s.substring_char(n - 8, n);
    proof {
        assert(tail@ =~= s@.skip(n - 8));
    }
    crate::text::str_eq(tail, suffix)
}

/// The text after the last space of `s` (all of `s` when it holds none).
fn last_field(s: &str) -> (r: String)
    ensures
        r@ == split_seq(s@, ' ').last(),
{
    let fields = split_on_char(s, ' ');
    proof {
        lemma_split_nonempty(s@, ' ');
        assert(views(fields@).last() == fields@[fields@.len() - 1]@);
    }
    owned(fields[fields.len() - 1].as_str())
}


/// Parses the output of `git cat-file --batch` answering `count` requests, in
/// request order.
#[verifier::rlimit(30)]
pub fn parse_cat_file_batch(out: &[u8], count: usize) -> (r: Result<Vec<Option<Vec<u8>>>, GitError>)
    ensures
        blobs_match(r, batch_outcome(out@, count as nat)),
{
    let n = out.len();
    let mut results: Vec<Option<Vec<u8>>> = Vec::new();
    let mut pos: usize = 0;
    let mut k: usize = 0;
    let ghost mut done: Seq<Option<Seq<u8>>> = Seq::empty();
    proof {
        assert(out@.skip(0) =~= out@);
        if batch_outcome(out@, count as nat) is Ok {
            assert(done + batch_outcome(out@, count as nat)->Ok_0 =~= batch_outcome(out@, count as nat)->Ok_0);
        }
    }
    while k < count
        invariant
            n == out@.len(),
            pos <= n,
            k <= count,
            results@.len() == done.len(),
            forall|i: int| 0 <= i < done.len() ==> match (#[trigger] results@[i], done[i]) {
                (Some(a), Some(b)) => a@ == b,
                (None, None) => true,
                _ => false,
            },
            batch_outcome(out@, count as nat) == (match batch_outcome(out@.skip(pos as int), (count - k) as nat) {
                Ok(t) => Ok(done + t),
                Err(e) => Err(e),
            }),
        decreases count - k,
    {
        let ghost s = out@.skip(pos as int);
        let step = read_response(out, pos);
        proof {
            lemma_line_len_bounds(s);
            lemma_batch_unfold(s, (count - k) as nat);
        }
        match step {
            Err(e) => {
                return Err(e);
            },
            Ok((next, blob)) => {
                let ghost before = done;
                let ghost x = match &blob {
                    Some(v) => Some(v@),
                    None => None,
                };
                results.push(blob);
                proof {
                    done = done.push(x);
                    assert(s.skip(next - pos) =~= out@.skip(next as int));
                    let tail = batch_outcome(out@.skip(next as int), (count - k - 1) as nat);
                    if tail is Ok {
                        assert(before + (seq![x] + tail->Ok_0) =~= done + tail->Ok_0);
                    }
                }
                pos = next;
            },
        }
        k = k + 1;
    }
    proof {
        reveal(batch_outcome);
        assert(done + Seq::<Option<Seq<u8>>>::empty() =~= done);
    }
    Ok(results)
}

proof fn lemma_line_len_bounds(s: Seq<u8>)
    ensures
        0 <= line_len(s) <= s.len(),
{
    crate::text::lemma_first_index(s, 10u8);
}

/// Reads the response starting at `pos`: where the next one starts and this one's
/// blob, or the error.
fn read_response(out: &[u8], pos: usize) -> (r: Result<(usize, Option<Vec<u8>>), GitError>)
    requires
        pos <= out@.len(),
    ensures
        match (r, batch_step(out@.skip(pos as int))) {
            (Ok((next, blob)), Ok((k, x))) => next == pos + k && pos <= next <= out@.len() && match (blob, x) {
                (Some(a), Some(b)) => a@ == b,
                (None, None) => true,
                _ => false,
            },
            (Err(e), Err(m)) => e.0@ == m,
            _ => false,
        },
{
    let n = out.len();
    let ghost s = out@.skip(pos as int);
    let nl = first_byte_index(out, pos, 10u8);
    let line_end = if nl < n { nl + 1 } else { n };
    proof {
        crate::text::lemma_first_index(s, 10u8);
        let fi = crate::text::first_index(s, 10u8);
        if nl < n {
            assert(s[nl - pos] == 10u8);
            assert(fi is Some);
            assert(fi->0 == nl - pos) by {
                if fi->0 < nl - pos {
                    assert(s[fi->0] == out@[pos + fi->0]);
                }
            }
        } else {
            assert forall|j: int| 0 <= j < s.len() implies s[j] != 10u8 by {
                assert(s[j] == out@[pos + j]);
            }
            assert(fi is None);
        }
        assert(line_len(s) == line_end - pos);
    }
    let line_bytes = vstd::slice::slice_subrange(out, pos, line_end);
    proof {
        assert(line_bytes@ =~= s.take(line_len(s)));
    }
    let line = match utf8_text(line_bytes) {
        None => {
            return Err(
                GitError(
                    owned(
                        "reading `git cat-file --batch` output: stream did not contain valid UTF-8",
                    ),
                ),
            );
        },
        Some(l) => l,
    };
    let header = trim_end(line.as_str());
    if header.as_str().unicode_len() == 0 || ends_with_missing(header.as_str()) {
        return Ok((line_end, None));
    }
    let field = last_field(header.as_str());
    let size = match parse_unsigned_str(field.as_str(), usize::MAX as u64) {
        None => {
            let mut m = owned("malformed cat-file header: ");
            m.append(header.as_str());
            return Err(GitError(m));
        },
        Some(v) => v as usize,
    };
    if n - line_end < size {
        return Err(GitError(owned("reading blob content: failed to fill whole buffer")));
    }
    if n - line_end < size + 1 {
        return Err(GitError(owned("reading blob terminator: failed to fill whole buffer")));
    }
    let content = vstd::slice::slice_to_vec(
        vstd::slice::slice_subrange(out, line_end, line_end + size),
    );
    proof {
        assert(content@ =~= s.skip(line_len(s)).take(size as int));
    }
    Ok((line_end + size + 1, Some(content)))
}

/// The requests `git cat-file --batch` reads: each id on a line of its own.
pub fn cat_blobs_request(shas: &Vec<String>) -> (r: String)
    ensures
        r@ == shas@.map_values(|x: String| x@ + "\n"@).flatten(),
{
    let mut out = String::new();
    let mut i: usize = 0;
    while i < shas.len()
        invariant
            i <= shas@.len(),
            out@ == shas@.take(i as int).map_values(|x: String| x@ + "\n"@).flatten(),
        decreases shas@.len() - i,
    {
        proof {
            let f = |x: String| x@ + "\n"@;
            assert(shas@.take(i + 1).map_values(f) =~= shas@.take(i as int).map_values(f).push(
                f(shas@[i as int]),
            ));
            shas@.take(i as int).map_values(f).lemma_flatten_push(f(shas@[i as int]));
        }
        out.append(shas[i].as_str());
        out.append("\n");
        proof {
            assert(out@ =~= shas@.take(i as int).map_values(|x: String| x@ + "\n"@).flatten() + (
            shas@[i as int]@ + "\n"@));
        }
        i = i + 1;
    }
    proof {
        assert(shas@.take(shas@.len() as int) =~= shas@);
    }
    out
}

/// `git -C <root> cat-file --batch`.
pub fn cat_blobs_args(repo_root: &str) -> (r: Vec<String>)
    ensures
        views(r@) == seq!["-C"@, repo_root@, "cat-file"@, "--batch"@],
{
    strings4("-C", repo_root, "cat-file", "--batch")
}

/// The contents of `shas`, in request order, from what `git cat-file --batch` printed
/// in answer to [`cat_blobs_request`] — `None` for an id git reports missing. No
/// request means no process and no output to read.
pub fn cat_blobs(shas: &Vec<String>, out: &GitOutput) -> (r: Result<Vec<Option<Vec<u8>>>, GitError>)
    ensures
        shas@.len() == 0 ==> (r matches Ok(v) && v@.len() == 0),
        shas@.len() > 0 ==> match *out {
            GitOutput::SpawnFailed(e) => (r matches Err(g) && g.0@
                == "failed to run `git cat-file --batch`: "@ + e@),
            GitOutput::Exited { stdout, .. } => blobs_match(r, batch_outcome(stdout@, shas@.len())),
        },
{
    if shas.len() == 0 {
        return Ok(Vec::new());
    }
    match out {
        GitOutput::SpawnFailed(e) => {
            let mut m = owned("failed to run `git cat-file --batch`: ");
            m.append(e.as_str());
            Err(GitError(m))
        },
        GitOutput::Exited { stdout, .. } => parse_cat_file_batch(stdout.as_slice(), shas.len()),
    }
}

/// What one `git cat-file --batch` response header line says: `None` for an id git
/// reports missing (or an ended stream), else the blob's size; a header whose last
/// field is no size is malformed.
pub open spec fn header_outcome(line: Seq<char>) -> Result<Option<int>, Seq<char>> {
    let header = trimmed_end(line);
    if header.len() == 0 || ends_with(header, " missing"@) {
        Ok(None)
    } else {
        match parse_unsigned(split_seq(header, ' ').last(), usize::MAX as int) {
            None => Err("malformed cat-file header: "@ + header),
            Some(size) => Ok(Some(size)),
        }
    }
}

/// Reads one response header line of a persistent `git cat-file --batch` reader: the
/// size of the blob that follows, `None` for an id git reports missing.
pub fn parse_blob_header(line: &str) -> (r: Result<Option<usize>, GitError>)
    ensures
        match (r, header_outcome(line@)) {
            (Ok(Some(a)), Ok(Some(b))) => a as int == b,
            (Ok(None), Ok(None)) => true,
            (Err(e), Err(m)) => e.0@ == m,
            _ => false,
        },
{
    let header = trim_end(line);
    if header.as_str().unicode_len() == 0 || ends_with_missing(header.as_str()) {
        return Ok(None);
    }
    let field = last_field(header.as_str());
    match parse_unsigned_str(field.as_str(), usize::MAX as u64) {
        None => {
            let mut m = owned("malformed cat-file header: ");
            m.append(header.as_str());
            Err(GitError(m))
        },
        Some(v) => {
            proof {
                crate::text::lemma_parse_unsigned_range(split_seq(header@, ' ').last(), usize::MAX as int);
            }
            Ok(Some(v as usize))
        },
    }
}

} // verus!
