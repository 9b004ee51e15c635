use egaku::chigai::{diff, diff_lines, Change, DiffOptions};

#[derive(PartialEq, Debug)]
struct Tok(u8);



/// Applying the script to `old` must reproduce `new`, exactly. This is
/// the property that matters — a diff that looks plausible but does not
/// reconstruct is worthless, and it is the one check that catches an
/// off-by-one in the backtrack.
fn assert_reconstructs(old: &str, new: &str) {
    let (d, o, n) = diff_lines(old, new);
    let mut got: Vec<&str> = Vec::new();
    for c in d.changes() {
        match *c {
            Change::Equal { new_index, .. } | Change::Insert { new_index } => {
                got.push(n[new_index]);
            }
            Change::Delete { .. } => {}
        }
    }
    assert_eq!(
        got, n,
        "script did not reconstruct new from old ({old:?} → {new:?})"
    );

    // …and the delete/equal side must reconstruct `old`.
    let mut back: Vec<&str> = Vec::new();
    for c in d.changes() {
        match *c {
            Change::Equal { old_index, .. } | Change::Delete { old_index } => {
                back.push(o[old_index]);
            }
            Change::Insert { .. } => {}
        }
    }
    assert_eq!(back, o, "script did not reconstruct old");
}

#[test]
fn identical_sequences_are_all_equal() {
    let (d, _, _) = diff_lines("a\nb\nc", "a\nb\nc");
    assert!(d.is_empty_change());
    assert_eq!(d.stats(), (0, 0));
    assert!(d.is_minimal());
}

#[test]
fn pure_insertion_and_pure_deletion() {
    let (ins, _, _) = diff_lines("a\nc", "a\nb\nc");
    assert_eq!(ins.stats(), (1, 0));
    let (del, _, _) = diff_lines("a\nb\nc", "a\nc");
    assert_eq!(del.stats(), (0, 1));
}

#[test]
fn a_replacement_is_one_delete_and_one_insert() {
    let (d, _, _) = diff_lines("a\nX\nc", "a\nY\nc");
    assert_eq!(d.stats(), (1, 1));
}

/// Myers is optimal: a minimal script must not report a moved line as
/// changed. Inserting one line into a 5-line file is exactly 1 edit.
#[test]
fn the_script_is_minimal_not_merely_correct() {
    let (d, _, _) = diff_lines("a\nb\nc\nd\ne", "a\nb\nX\nc\nd\ne");
    assert_eq!(d.stats(), (1, 0), "one insertion, not a block replace");
    assert!(d.is_minimal());
}

#[test]
fn reconstruction_holds_across_shapes() {
    assert_reconstructs("", "");
    assert_reconstructs("a", "");
    assert_reconstructs("", "a");
    assert_reconstructs("a\nb\nc", "a\nb\nc");
    assert_reconstructs("a\nb\nc", "c\nb\na");
    assert_reconstructs("a\nb\nc\nd", "b\nd\ne");
    assert_reconstructs("the\nquick\nbrown\nfox", "the\nlazy\nbrown\ndog\n!");
    assert_reconstructs("x\nx\nx\nx", "x\nx");
    assert_reconstructs("1\n2\n3\n4\n5\n6\n7\n8\n9", "1\n9\n2\n8\n3\n7");
}

/// The prefix/suffix trim is what keeps a one-line edit in a large file
/// proportional to the CHANGE, not the file.
#[test]
fn common_prefix_and_suffix_are_trimmed() {
    let old: String = (0..500).map(|i| format!("line{i}\n")).collect();
    let mut new_lines: Vec<String> = (0..500).map(|i| format!("line{i}")).collect();
    new_lines[250] = "CHANGED".into();
    let new = new_lines.join("\n");
    let (d, _, _) = diff_lines(&old, &new);
    assert_eq!(d.stats(), (1, 1), "one line changed, not 500");
    assert!(d.is_minimal());
}

/// The bounded ceiling, exercised: two large unrelated inputs must fall
/// back rather than hang — and must SAY they fell back.
#[test]
fn exceeding_the_cost_bound_falls_back_and_admits_it() {
    let a: Vec<usize> = (0..400).collect();
    let b: Vec<usize> = (10_000..10_400).collect();
    let d = diff(&a, &b, DiffOptions { max_cost: Some(8) });
    assert!(!d.is_minimal(), "a bounded run must not claim minimality");
    assert_eq!(d.stats(), (400, 400), "correct, just not minimal");
}

/// Falling back must still reconstruct — non-minimal is allowed, wrong
/// is not.
#[test]
fn the_fallback_script_is_still_correct() {
    let a: Vec<usize> = (0..50).collect();
    let b: Vec<usize> = (900..960).collect();
    let d = diff(&a, &b, DiffOptions { max_cost: Some(2) });
    let mut rebuilt: Vec<usize> = Vec::new();
    for c in d.changes() {
        match *c {
            Change::Equal { new_index, .. } | Change::Insert { new_index } => {
                rebuilt.push(b[new_index]);
            }
            Change::Delete { .. } => {}
        }
    }
    assert_eq!(rebuilt, b);
}

/// Unbounded is available for callers who genuinely want optimality at
/// any cost.
#[test]
fn max_cost_none_always_minimises() {
    let a: Vec<usize> = (0..60).collect();
    let b: Vec<usize> = (30..90).collect();
    let d = diff(&a, &b, DiffOptions { max_cost: None });
    assert!(d.is_minimal());
    assert_eq!(d.stats(), (30, 30));
}

/// Generic over T, not hard-wired to text — the property that lets the
/// same engine diff words or typed tokens later.
#[test]
fn diffs_any_comparable_element() {
    let a = [Tok(1), Tok(2), Tok(3)];
    let b = [Tok(1), Tok(9), Tok(3)];
    let d = diff(&a, &b, DiffOptions::default());
    assert_eq!(d.stats(), (1, 1));
}

#[test]
fn indices_point_into_the_original_slices() {
    let (d, o, n) = diff_lines("keep\nold", "keep\nnew");
    for c in d.changes() {
        match *c {
            Change::Equal {
                old_index,
                new_index,
            } => {
                assert_eq!(o[old_index], n[new_index]);
            }
            Change::Delete { old_index } => assert_eq!(o[old_index], "old"),
            Change::Insert { new_index } => assert_eq!(n[new_index], "new"),
        }
    }
}

#[test]
fn empty_inputs_are_safe() {
    let e: [u8; 0] = [];
    assert!(diff(&e, &e, DiffOptions::default()).is_empty_change());
    assert_eq!(diff(&e, &[1u8, 2], DiffOptions::default()).stats(), (2, 0));
    assert_eq!(diff(&[1u8, 2], &e, DiffOptions::default()).stats(), (0, 2));
}
