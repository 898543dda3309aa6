use kndo_core::gitutil::{
    cat_blobs, cat_blobs_request, interpret_run, ls_tree, merge_base, parse_blob_header, parse_cat_file_batch,
    parse_ls_tree_output, repo_root, repo_root_args, rev_parse, write_tree, GitOutput,
};

fn ok(stdout: &[u8]) -> GitOutput {
    GitOutput::Exited {
        success: true,
        stdout: stdout.to_vec(),
        stderr: Vec::new(),
    }
}

fn failed(stderr: &[u8]) -> GitOutput {
    GitOutput::Exited {
        success: false,
        stdout: Vec::new(),
        stderr: stderr.to_vec(),
    }
}

#[test]
fn a_successful_run_yields_its_trimmed_output() {
    assert_eq!(repo_root("/w/sub", &ok(b"/w\n")).unwrap(), "/w");
    assert_eq!(rev_parse("/w", "HEAD", &ok(b"  abc123 \n")).unwrap(), "abc123");
    assert_eq!(merge_base("/w", "a", "b", &ok(b"def\n")).unwrap(), "def");
    assert_eq!(write_tree("/w", &ok(b"t1\n")).unwrap(), "t1");
}

#[test]
fn a_failed_run_reports_stderr_or_names_the_command() {
    let e = rev_parse("/w", "nope", &failed(b"fatal: bad revision\n")).unwrap_err();
    assert_eq!(e.0, "fatal: bad revision");
    let e = rev_parse("/w", "nope", &failed(b"  \n")).unwrap_err();
    assert_eq!(e.0, "`git -C /w rev-parse nope` failed");
    let e = repo_root("/w", &GitOutput::SpawnFailed("not found".to_string())).unwrap_err();
    assert_eq!(e.0, "failed to run `git -C /w rev-parse --show-toplevel`: not found");
    let args = repo_root_args("/w");
    assert!(interpret_run(&args, &ok(b"x")).is_ok());
}

#[test]
fn ls_tree_keeps_blobs_with_modes_and_raw_paths() {
    let out = b"100644 blob aaaa\tsrc/a.rs\x00040000 tree bbbb\tsrc\x00100755 blob cccc\tbin/r\xffn\x00";
    let entries = parse_ls_tree_output(out).unwrap();
    assert_eq!(entries.len(), 2);
    assert_eq!(entries[0].path, b"src/a.rs".to_vec());
    assert_eq!(entries[0].sha, "aaaa");
    assert_eq!(entries[0].mode, 100644);
    assert_eq!(entries[1].path, b"bin/r\xffn".to_vec());
    assert_eq!(entries[1].mode, 100755);
    let listed = ls_tree("HEAD", &ok(out)).unwrap();
    assert_eq!(listed.len(), 2);
}

#[test]
fn ls_tree_rejects_a_malformed_record() {
    let e = parse_ls_tree_output(b"100644 blob aaaa no tab\x00").unwrap_err();
    assert_eq!(e.0, "malformed `git ls-tree -z` record (no tab)");
    let e = parse_ls_tree_output(b"1x0644 blob aaaa\tp\x00").unwrap_err();
    assert_eq!(e.0, "malformed ls-tree mode: 1x0644");
    let e = ls_tree("HEAD", &failed(b"")).unwrap_err();
    assert_eq!(e.0, "`git ls-tree HEAD` failed");
}

#[test]
fn cat_file_batch_answers_in_request_order() {
    let shas = vec!["aaaa".to_string(), "zzzz".to_string(), "bbbb".to_string()];
    assert_eq!(cat_blobs_request(&shas), "aaaa\nzzzz\nbbbb\n");
    let out = b"aaaa blob 5\nhello\nzzzz missing\nbbbb blob 0\n\n";
    let blobs = parse_cat_file_batch(out, 3).unwrap();
    assert_eq!(blobs, vec![Some(b"hello".to_vec()), None, Some(Vec::new())]);
    let via = cat_blobs(&shas, &ok(out)).unwrap();
    assert_eq!(via.len(), 3);
    assert_eq!(cat_blobs(&Vec::new(), &GitOutput::SpawnFailed("x".to_string())).unwrap(), Vec::<Option<Vec<u8>>>::new());
}

#[test]
fn cat_file_batch_refuses_truncated_output() {
    assert!(parse_cat_file_batch(b"aaaa blob 5\nhel", 1).is_err());
    // End of output reads as an empty header: a missing blob, not an error.
    assert_eq!(parse_cat_file_batch(b"", 1).unwrap(), vec![None]);
    assert!(parse_cat_file_batch(b"aaaa blob x\n", 1).is_err());
}

#[test]
fn a_blob_header_gives_the_size_or_none_for_a_missing_id() {
    assert_eq!(parse_blob_header("0123abcd blob 42\n").unwrap(), Some(42));
    assert_eq!(parse_blob_header("0123abcd missing\n").unwrap(), None);
    assert_eq!(parse_blob_header("").unwrap(), None);
    let err = parse_blob_header("0123abcd blob many\n").unwrap_err();
    assert_eq!(err.0, "malformed cat-file header: 0123abcd blob many");
}
