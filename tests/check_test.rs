use ictc::correlate::{check_change, requested_files, SourceFile};
use ictc::diff::{read_diff, Change};

const A_SH: &str = "\
#!/bin/bash
# if-change
echo \"a\"
echo \"b\"
# then-change tests/data/2-files/b.sh
";

const B_SH: &str = "\
#!/bin/bash

# if-change
echo \"x\"
# then-change tests/data/2-files/a.sh
echo \"after\"
echo \"tail\"
";

const A_SH_CHANGED: &str = "\
diff --git a/tests/data/2-files/a.sh b/tests/data/2-files/a.sh
index 1111111..2222222 100644
--- a/tests/data/2-files/a.sh
+++ b/tests/data/2-files/a.sh
@@ -1,5 +1,5 @@
 #!/bin/bash
 # if-change
-echo \"old\"
+echo \"a\"
 echo \"b\"
 # then-change tests/data/2-files/b.sh
";

const B_SH_CHANGED_INSIDE: &str = "\
diff --git a/tests/data/2-files/b.sh b/tests/data/2-files/b.sh
index 3333333..4444444 100644
--- a/tests/data/2-files/b.sh
+++ b/tests/data/2-files/b.sh
@@ -2,4 +2,5 @@
 
 # if-change
 echo \"x\"
+echo \"y\"
 # then-change tests/data/2-files/a.sh
";

const B_SH_CHANGED_OUTSIDE: &str = "\
diff --git a/tests/data/2-files/b.sh b/tests/data/2-files/b.sh
index 3333333..4444444 100644
--- a/tests/data/2-files/b.sh
+++ b/tests/data/2-files/b.sh
@@ -6,2 +6,2 @@
 echo \"after\"
-echo \"tail0\"
+echo \"tail\"
";

/// Reads `diff`, reads the files it reaches from `files`, and renders the report.
fn run(diff: &str, files: &[(&str, Option<&str>)]) -> String {
    let read = |paths: Vec<String>| -> Vec<SourceFile> {
        paths
            .into_iter()
            .map(|p| {
                let contents = files
                    .iter()
                    .find(|(q, _)| *q == p)
                    .and_then(|(_, c)| c.map(|c| c.to_string()));
                SourceFile { path: p, contents }
            })
            .collect()
    };
    let d = read_diff(diff).expect("diff should parse");
    let change = Change::from_diff(d.files, d.is_git_diff);
    let mut fs = read(change.files.iter().map(|c| c.path.clone()).collect());
    let more = read(requested_files(&change, &fs));
    fs.extend(more);
    check_change(&change, &fs)
        .iter()
        .map(|d| d.to_string() + "\n")
        .collect()
}

#[test]
fn one_changed_in_if_change() {
    let out = run(
        A_SH_CHANGED,
        &[("tests/data/2-files/a.sh", Some(A_SH)), ("tests/data/2-files/b.sh", Some(B_SH))],
    );
    assert_eq!(
        out,
        "\
tests/data/2-files/b.sh:3-5 - expected change here due to change in tests/data/2-files/a.sh:2-5
"
    );
}

#[test]
fn both_changed_both_added_lines_in_if_change() {
    let diff = format!("{}{}", A_SH_CHANGED, B_SH_CHANGED_INSIDE);
    let b_after = "\
#!/bin/bash

# if-change
echo \"x\"
echo \"y\"
# then-change tests/data/2-files/a.sh
echo \"after\"
";
    let out = run(
        &diff,
        &[("tests/data/2-files/a.sh", Some(A_SH)), ("tests/data/2-files/b.sh", Some(b_after))],
    );
    assert_eq!(out, "");
}

#[test]
fn both_changed_one_in_if_change() {
    let diff = format!("{}{}", A_SH_CHANGED, B_SH_CHANGED_OUTSIDE);
    let out = run(
        &diff,
        &[("tests/data/2-files/a.sh", Some(A_SH)), ("tests/data/2-files/b.sh", Some(B_SH))],
    );
    assert_eq!(
        out,
        "\
tests/data/2-files/b.sh:3-5 - expected change here due to change in tests/data/2-files/a.sh:2-5
"
    );
}

const C_SH: &str = "\
#!/bin/bash
# if-change
echo \"c\"
echo \"c2\"
# then-change tests/data/one-file-missing-if-change/d.sh
";

const D_SH: &str = "\
#!/bin/bash
echo \"d\"
";

const C_SH_CHANGED: &str = "\
diff --git a/tests/data/one-file-missing-if-change/c.sh b/tests/data/one-file-missing-if-change/c.sh
index 1111111..2222222 100644
--- a/tests/data/one-file-missing-if-change/c.sh
+++ b/tests/data/one-file-missing-if-change/c.sh
@@ -2,3 +2,3 @@
 # if-change
-echo \"c0\"
+echo \"c\"
 echo \"c2\"
";

const D_SH_CHANGED: &str = "\
diff --git a/tests/data/one-file-missing-if-change/d.sh b/tests/data/one-file-missing-if-change/d.sh
index 3333333..4444444 100644
--- a/tests/data/one-file-missing-if-change/d.sh
+++ b/tests/data/one-file-missing-if-change/d.sh
@@ -1,2 +1,2 @@
 #!/bin/bash
-echo \"d0\"
+echo \"d\"
";

#[test]
fn one_changed_in_if_change_other_missing_if_change() {
    let out = run(
        C_SH_CHANGED,
        &[
            ("tests/data/one-file-missing-if-change/c.sh", Some(C_SH)),
            ("tests/data/one-file-missing-if-change/d.sh", Some(D_SH)),
        ],
    );
    assert_eq!(
        out,
        "\
tests/data/one-file-missing-if-change/d.sh - expected an if-change-then-change in this file that matches tests/data/one-file-missing-if-change/c.sh:2-5
tests/data/one-file-missing-if-change/d.sh - expected change here due to change in tests/data/one-file-missing-if-change/c.sh:2-5
"
    );
}

#[test]
fn both_changed_one_missing_if_change() {
    let diff = format!("{}{}", C_SH_CHANGED, D_SH_CHANGED);
    let out = run(
        &diff,
        &[
            ("tests/data/one-file-missing-if-change/c.sh", Some(C_SH)),
            ("tests/data/one-file-missing-if-change/d.sh", Some(D_SH)),
        ],
    );
    assert_eq!(
        out,
        "\
tests/data/one-file-missing-if-change/d.sh - expected an if-change-then-change in this file that matches tests/data/one-file-missing-if-change/c.sh:2-5
"
    );
}

#[test]
fn then_change_references_nonexistent_file() {
    let z_sh = "\
#!/bin/bash
echo 1
echo 2
echo 3
# if-change
echo 5
# then-change nonexistent.cfg
";
    let diff = "\
diff --git a/tests/data/path-validation/z.sh b/tests/data/path-validation/z.sh
index 1111111..2222222 100644
--- a/tests/data/path-validation/z.sh
+++ b/tests/data/path-validation/z.sh
@@ -5,3 +5,3 @@
 # if-change
-echo 4
+echo 5
 # then-change nonexistent.cfg
";
    let out = run(diff, &[("tests/data/path-validation/z.sh", Some(z_sh))]);
    assert_eq!(
        out,
        "\
tests/data/path-validation/z.sh:7 - then-change references file that does not exist: 'nonexistent.cfg'
"
    );
}

#[test]
fn post_diff_path_is_nonexistent() {
    let diff = "\
diff --git a/nonexistent.sh b/nonexistent.sh
index 1111111..2222222 100644
--- a/nonexistent.sh
+++ b/nonexistent.sh
@@ -1,1 +1,1 @@
-echo 0
+echo 1
";
    let out = run(diff, &[("nonexistent.sh", None)]);
    assert_eq!(
        out,
        "\
stdin - diff references file that does not exist: 'nonexistent.sh'
"
    );
}

#[test]
fn post_diff_path_is_dev_null() {
    let diff = "\
diff --git a/deleted.sh b/deleted.sh
deleted file mode 100644
index 1111111..0000000
--- a/deleted.sh
+++ /dev/null
@@ -1,2 +0,0 @@
-#!/bin/bash
-echo 1
";
    let out = run(diff, &[]);
    assert_eq!(out, "");
}

#[test]
fn invalid_before_after_paths() {
    let diff = "\
diff --git a/invalid-before0.txt b/invalid-after0.txt
index 1111111..2222222 100644
--- invalid-before0.txt
+++ b/invalid-after0.txt
@@ -1,1 +1,1 @@
-a
+b
diff --git a/invalid-before1.txt b/invalid-after1.txt
index 1111111..2222222 100644
--- a/invalid-before1.txt
+++ invalid-after1.txt
@@ -1,1 +1,1 @@
-a
+b
";
    let out = run(diff, &[]);
    assert_eq!(
        out,
        "\
stdin - invalid git diff: expected a/before.path -> b/after.path, but got 'a/invalid-before1.txt' -> 'invalid-after1.txt'
stdin - invalid git diff: expected a/before.path -> b/after.path, but got 'invalid-before0.txt' -> 'b/invalid-after0.txt'
"
    );
}

#[test]
fn new_file() {
    let diff = "\
diff --git a/e.sh b/e.sh
new file mode 100644
index 0000000..1111111
--- /dev/null
+++ b/e.sh
@@ -0,0 +1,2 @@
+#!/bin/bash
+echo e
";
    let out = run(diff, &[("e.sh", Some("#!/bin/bash\necho e\n"))]);
    assert_eq!(out, "");
}

/// A one-line edit of line `line` (1-indexed) of `path`, in git form.
fn edit(path: &str, line: usize) -> String {
    format!(
        "diff --git a/{p} b/{p}\nindex 1111111..2222222 100644\n--- a/{p}\n+++ b/{p}\n@@ -{l},1 +{l},1 @@\n-old\n+new\n",
        p = path,
        l = line
    )
}

/// A file whose lines 2 to `end` (1-indexed) are a block naming `targets`.
fn block_file(end: usize, targets: &[&str]) -> String {
    let mut s = String::from("#!/bin/bash\n# if-change\n");
    for k in 0..(end - 4 - targets.len()) {
        s.push_str(&format!("echo {}\n", k));
    }
    s.push_str("# then-change\n");
    for t in targets.iter() {
        s.push_str(&format!("#   {}\n", t));
    }
    s.push_str("# end-change\n");
    s
}

const TWO_A: &str = "\
#!/bin/bash
# if-change
echo a1
echo a1b
# then-change tests/data/file-with-2-blocks/b1.sh

# if-change
echo a2
echo a2b
# then-change tests/data/file-with-2-blocks/b2.sh
";

const TWO_B1: &str = "\
#!/bin/bash
# if-change
echo b1
# then-change tests/data/file-with-2-blocks/a.sh
";

const TWO_B2: &str = "\
#!/bin/bash
# if-change
echo b2
# then-change tests/data/file-with-2-blocks/a.sh
";

fn two_blocks(diff: &str) -> String {
    run(
        diff,
        &[
            ("tests/data/file-with-2-blocks/a.sh", Some(TWO_A)),
            ("tests/data/file-with-2-blocks/b1.sh", Some(TWO_B1)),
            ("tests/data/file-with-2-blocks/b2.sh", Some(TWO_B2)),
        ],
    )
}

#[test]
fn file_with_2_blocks___both_blocks_changed() {
    let diff = "\
diff --git a/tests/data/file-with-2-blocks/a.sh b/tests/data/file-with-2-blocks/a.sh
index 1111111..2222222 100644
--- a/tests/data/file-with-2-blocks/a.sh
+++ b/tests/data/file-with-2-blocks/a.sh
@@ -3,1 +3,1 @@
-old
+echo a1
@@ -8,1 +8,1 @@
-old
+echo a2
";
    let out = two_blocks(diff);
    assert_eq!(
        out,
        "\
tests/data/file-with-2-blocks/b1.sh:2-4 - expected change here due to change in tests/data/file-with-2-blocks/a.sh:2-5
tests/data/file-with-2-blocks/b2.sh:2-4 - expected change here due to change in tests/data/file-with-2-blocks/a.sh:7-10
"
    );
}

#[test]
fn file_with_2_blocks___both_blocks_missing_changes() {
    let out = two_blocks(&format!(
        "{}{}",
        edit("tests/data/file-with-2-blocks/b1.sh", 3),
        edit("tests/data/file-with-2-blocks/b2.sh", 3)
    ));
    assert_eq!(
        out,
        "\
tests/data/file-with-2-blocks/a.sh:2-5 - expected change here due to change in tests/data/file-with-2-blocks/b1.sh:2-4
tests/data/file-with-2-blocks/a.sh:7-10 - expected change here due to change in tests/data/file-with-2-blocks/b2.sh:2-4
"
    );
}

#[test]
fn file_with_2_blocks___1st_block_changed_2nd_block_missing_change() {
    let out = two_blocks(&format!(
        "{}{}",
        edit("tests/data/file-with-2-blocks/a.sh", 3),
        edit("tests/data/file-with-2-blocks/b2.sh", 3)
    ));
    assert_eq!(
        out,
        "\
tests/data/file-with-2-blocks/a.sh:7-10 - expected change here due to change in tests/data/file-with-2-blocks/b2.sh:2-4
tests/data/file-with-2-blocks/b1.sh:2-4 - expected change here due to change in tests/data/file-with-2-blocks/a.sh:2-5
"
    );
}

#[test]
fn file_with_2_blocks___1st_block_missing_change_2nd_block_changed() {
    let out = two_blocks(&format!(
        "{}{}",
        edit("tests/data/file-with-2-blocks/a.sh", 8),
        edit("tests/data/file-with-2-blocks/b1.sh", 3)
    ));
    assert_eq!(
        out,
        "\
tests/data/file-with-2-blocks/a.sh:2-5 - expected change here due to change in tests/data/file-with-2-blocks/b1.sh:2-4
tests/data/file-with-2-blocks/b2.sh:2-4 - expected change here due to change in tests/data/file-with-2-blocks/a.sh:7-10
"
    );
}

#[test]
fn three_files() {
    let d = "tests/data/3-files/";
    let (build, push, release) = (
        format!("{}build.sh", d),
        format!("{}push.sh", d),
        format!("{}release.sh", d),
    );
    let release_text = block_file(7, &[&build, &push]);
    let build_text = block_file(7, &[&release]);
    let push_text = block_file(7, &[&release]);
    let out = run(
        &edit(&release, 3),
        &[
            (&build, Some(&build_text)),
            (&push, Some(&push_text)),
            (&release, Some(&release_text)),
        ],
    );
    assert_eq!(
        out,
        "\
tests/data/3-files/build.sh:2-7 - expected change here due to change in tests/data/3-files/release.sh:2-7
tests/data/3-files/push.sh:2-7 - expected change here due to change in tests/data/3-files/release.sh:2-7
"
    );
}

#[test]
fn three_files_incomplete() {
    let d = "tests/data/3-files-incomplete/";
    let (build, push, release) = (
        format!("{}build.sh", d),
        format!("{}push.sh", d),
        format!("{}release.sh", d),
    );
    let push_text = block_file(7, &[&build, &release]);
    let build_text = block_file(6, &[&push]);
    let release_text = block_file(6, &[&push]);
    let out = run(
        &edit(&push, 3),
        &[
            (&build, Some(&build_text)),
            (&push, Some(&push_text)),
            (&release, Some(&release_text)),
        ],
    );
    assert_eq!(
        out,
        "\
tests/data/3-files-incomplete/build.sh:2-6 - expected change here due to change in tests/data/3-files-incomplete/push.sh:2-7
tests/data/3-files-incomplete/release.sh:2-6 - expected change here due to change in tests/data/3-files-incomplete/push.sh:2-7
"
    );
}

#[test]
fn five_files() {
    let d = "tests/data/5-files/";
    let names = ["push.sh", "release-prod.sh", "release-staging.sh", "release-stress.sh"];
    let build = format!("{}build.sh", d);
    let others: Vec<String> = names.iter().map(|n| format!("{}{}", d, n)).collect();
    let other_refs: Vec<&str> = others.iter().map(|s| s.as_str()).collect();
    let build_text = block_file(10, &other_refs);
    let other_text = block_file(10, &[&build]);
    let mut files: Vec<(&str, Option<&str>)> = vec![(&build, Some(&build_text))];
    for o in others.iter() {
        files.push((o, Some(&other_text)));
    }
    let out = run(&edit(&build, 3), &files);
    assert_eq!(
        out,
        "\
tests/data/5-files/push.sh:2-10 - expected change here due to change in tests/data/5-files/build.sh:2-10
tests/data/5-files/release-prod.sh:2-10 - expected change here due to change in tests/data/5-files/build.sh:2-10
tests/data/5-files/release-staging.sh:2-10 - expected change here due to change in tests/data/5-files/build.sh:2-10
tests/data/5-files/release-stress.sh:2-10 - expected change here due to change in tests/data/5-files/build.sh:2-10
"
    );
}

#[test]
fn both_changed_both_removed_lines_in_if_change() {
    let diff = "\
diff --git a/tests/data/2-files/a.sh b/tests/data/2-files/a.sh
index 1111111..2222222 100644
--- a/tests/data/2-files/a.sh
+++ b/tests/data/2-files/a.sh
@@ -1,6 +1,5 @@
 #!/bin/bash
 # if-change
 echo \"a\"
-echo \"removed\"
 echo \"b\"
 # then-change tests/data/2-files/b.sh
diff --git a/tests/data/2-files/b.sh b/tests/data/2-files/b.sh
index 3333333..4444444 100644
--- a/tests/data/2-files/b.sh
+++ b/tests/data/2-files/b.sh
@@ -3,4 +3,3 @@
 # if-change
-echo \"gone\"
 echo \"x\"
 # then-change tests/data/2-files/a.sh
";
    let out = run(
        diff,
        &[("tests/data/2-files/a.sh", Some(A_SH)), ("tests/data/2-files/b.sh", Some(B_SH))],
    );
    assert_eq!(out, "");
}

/// A one-line edit of line 1 of each of `paths`, in plain (not git) form.
fn edit_first_lines(paths: &[&str]) -> String {
    paths
        .iter()
        .map(|p| format!("--- {p}\n+++ {p}\n@@ -1,1 +1,1 @@\n-old\n+lorem\n", p = p))
        .collect()
}

/// Puts `text` on line `n` (1-indexed) of `lines`, filling with code lines.
fn put(lines: &mut Vec<String>, n: usize, text: String) {
    while lines.len() + 1 < n {
        lines.push(format!("code {}", lines.len() + 1));
    }
    lines.push(text);
}

#[test]
fn comment_formats_and_indentation_levels() {
    let styles = [("# ", ""), ("// ", ""), ("-- ", ""), ("/* ", " */"), ("<!-- ", " -->")];
    let indents = ["", "    ", "\t", "        "];
    let mut lines: Vec<String> = Vec::new();
    let mut k = 0;
    let mut style = |k: &mut usize| {
        let (o, c) = styles[*k % styles.len()];
        let i = indents[*k % indents.len()];
        *k += 1;
        (format!("{}{}", i, o), c.to_string())
    };
    for (n, name) in [(6, "inline1"), (13, "inline2"), (18, "inline3"), (24, "inline4"), (28, "inline5"), (32, "inline6"), (42, "inline7")] {
        let (o, c) = style(&mut k);
        put(&mut lines, n - 2, format!("{}if-change{}", o, c));
        put(&mut lines, n, format!("{}then-change then-change-{}.foo{}", o, name, c));
    }
    let blocks: [(usize, &[&str]); 7] = [
        (48, &["block1"]),
        (55, &["block2a", "block2b", "block2c"]),
        (66, &["block3"]),
        (73, &["block4"]),
        (79, &["block5"]),
        (87, &["block6a", "block6b"]),
        (97, &["block7"]),
    ];
    for (n, names) in blocks.iter() {
        let (o, c) = style(&mut k);
        put(&mut lines, n - 3, format!("{}if-change{}", o, c));
        put(&mut lines, n - 1, format!("{}then-change{}", o, c));
        for (j, name) in names.iter().enumerate() {
            put(&mut lines, n + j, format!("{}  then-change-{}.foo{}", o, name, c));
        }
        put(&mut lines, n + names.len(), format!("{}end-change{}", o, c));
    }
    let text = lines.join("\n") + "\n";
    let path = "tests/data/formatting/if-change.foo";
    let out = run(&edit_first_lines(&[path]), &[(path, Some(&text))]);
    assert_eq!(out, "\
tests/data/formatting/if-change.foo:6 - then-change references file that does not exist: 'then-change-inline1.foo'
tests/data/formatting/if-change.foo:13 - then-change references file that does not exist: 'then-change-inline2.foo'
tests/data/formatting/if-change.foo:18 - then-change references file that does not exist: 'then-change-inline3.foo'
tests/data/formatting/if-change.foo:24 - then-change references file that does not exist: 'then-change-inline4.foo'
tests/data/formatting/if-change.foo:28 - then-change references file that does not exist: 'then-change-inline5.foo'
tests/data/formatting/if-change.foo:32 - then-change references file that does not exist: 'then-change-inline6.foo'
tests/data/formatting/if-change.foo:42 - then-change references file that does not exist: 'then-change-inline7.foo'
tests/data/formatting/if-change.foo:48 - then-change references file that does not exist: 'then-change-block1.foo'
tests/data/formatting/if-change.foo:55 - then-change references file that does not exist: 'then-change-block2a.foo'
tests/data/formatting/if-change.foo:56 - then-change references file that does not exist: 'then-change-block2b.foo'
tests/data/formatting/if-change.foo:57 - then-change references file that does not exist: 'then-change-block2c.foo'
tests/data/formatting/if-change.foo:66 - then-change references file that does not exist: 'then-change-block3.foo'
tests/data/formatting/if-change.foo:73 - then-change references file that does not exist: 'then-change-block4.foo'
tests/data/formatting/if-change.foo:79 - then-change references file that does not exist: 'then-change-block5.foo'
tests/data/formatting/if-change.foo:87 - then-change references file that does not exist: 'then-change-block6a.foo'
tests/data/formatting/if-change.foo:88 - then-change references file that does not exist: 'then-change-block6b.foo'
tests/data/formatting/if-change.foo:97 - then-change references file that does not exist: 'then-change-block7.foo'
");
}

#[test]
fn malformed_syntax() {
    let d = "tests/data/malformed/";
    let files: Vec<(String, &str)> = vec![
        ("if-change-then-end-change.foo", "lorem\n# if-change\nipsum\ndolor\n# end-change\namet\n"),
        ("if-change-then-if-change.foo", "lorem\n# if-change\nipsum\n# if-change\ndolor\n"),
        ("nested-if-change.foo", "lorem\n# if-change\nipsum\n# if-change\ndolor\nsit\n# then-change other.foo\namet\n"),
        ("orphaned-end-change.foo", "lorem\nipsum\ndolor\n# end-change\namet\n"),
        ("orphaned-then-change-block-terminated.foo", "lorem\nipsum\ndolor\n# then-change\n#   other.foo\n# end-change\n"),
        ("orphaned-then-change-block-unterminated.foo", "lorem\nipsum\ndolor\n# then-change\n#   other.foo\n"),
        ("orphaned-then-change-inline.foo", "lorem\nipsum\ndolor\n# then-change other.foo\namet\n"),
        ("then-change-into-if-change.foo", "lorem\n# if-change\nipsum\n# then-change\n# if-change\ndolor\n# end-change\n"),
        ("then-change-into-invalid-paths.foo", "lorem\n# if-change\n# then-change\n#   then-change-nonexistent.foo\n#   also-nonexistent.foo\n#   empty string is invalid path\n#\n#   space-only is invalid path\n#    \n#   tab-only is invalid path\n#\t\n#   punctuation is invalid path\n# ---\n# end-change\n"),
        ("then-change-into-then-change-block.foo", "lorem\n# if-change\nipsum\n# then-change\n#   other.foo\n# then-change\n#   other.foo\n# end-change\n"),
        ("then-change-into-then-change-inline.foo", "lorem\n# if-change\nipsum\n# then-change\n# then-change other.foo\n"),
        ("unterminated-if-change.foo", "lorem\n# if-change\nipsum\n"),
        ("unterminated-then-change.foo", "lorem\n# if-change\nipsum\ndolor\nsit\n# then-change\n#   other.foo\n"),
    ]
    .into_iter()
    .map(|(n, t)| (format!("{}{}", d, n), t))
    .collect();
    let paths: Vec<&str> = files.iter().map(|(p, _)| p.as_str()).collect();
    let fs: Vec<(&str, Option<&str>)> = files.iter().map(|(p, t)| (p.as_str(), Some(*t))).collect();
    let out = run(&edit_first_lines(&paths), &fs);
    assert_eq!(
        out,
        "\
tests/data/malformed/if-change-then-end-change.foo:5 - end-change must follow an if-change and then-change
tests/data/malformed/if-change-then-if-change.foo:4 - if-change may not be nested
tests/data/malformed/nested-if-change.foo:4 - if-change may not be nested
tests/data/malformed/nested-if-change.foo:7 - then-change must follow an if-change
tests/data/malformed/orphaned-end-change.foo:4 - end-change must follow an if-change and then-change
tests/data/malformed/orphaned-then-change-block-terminated.foo:4 - then-change must follow an if-change
tests/data/malformed/orphaned-then-change-block-terminated.foo:6 - end-change must follow an if-change and then-change
tests/data/malformed/orphaned-then-change-block-unterminated.foo:4 - then-change must follow an if-change
tests/data/malformed/orphaned-then-change-inline.foo:4 - then-change must follow an if-change
tests/data/malformed/then-change-into-if-change.foo:5 - end-change must follow an if-change and then-change
tests/data/malformed/then-change-into-if-change.foo:7 - end-change must follow an if-change and then-change
tests/data/malformed/then-change-into-invalid-paths.foo:7 - then-change does not reference a valid path
tests/data/malformed/then-change-into-invalid-paths.foo:9 - then-change does not reference a valid path
tests/data/malformed/then-change-into-invalid-paths.foo:11 - then-change does not reference a valid path
tests/data/malformed/then-change-into-invalid-paths.foo:13 - then-change does not reference a valid path
tests/data/malformed/then-change-into-then-change-block.foo:6 - end-change must follow an if-change and then-change
tests/data/malformed/then-change-into-then-change-block.foo:8 - end-change must follow an if-change and then-change
tests/data/malformed/then-change-into-then-change-inline.foo:5 - end-change must follow an if-change and then-change
tests/data/malformed/unterminated-if-change.foo:3 - if-change must be closed by a then-change
tests/data/malformed/unterminated-then-change.foo:7 - then-change must be closed by an end-change
"
    );
}
