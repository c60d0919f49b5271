//! Folding the shared memory.

use molt_engine::identity::content_hash;
use molt_engine::model::{AppliedEntry, AppliedGroup, CheckpointState, Surface};
use molt_engine::payload::{Field, Payload};
use molt_engine::wiki_base::{
    base_commitment_of, commitment, plan_fold, plan_state, summarize, summarize_state,
    worth_folding, FoldPlan, BASE_ENTRY_ID,
};
use molt_engine::wiki_tree::{WikiFile, WikiTree};

fn field(name: &str, value: Payload) -> Field {
    Field { name: name.to_string(), value }
}

fn text(t: &str) -> Payload {
    Payload::Text(t.to_string())
}

fn entry(id: u64, payload: Payload) -> AppliedEntry {
    AppliedEntry { id, payload }
}

/// The patch that adds a document.
fn patch(path: &str, body: &str) -> Payload {
    let lines: Vec<&str> = body.split('\n').collect();
    let mut p = format!(
        "diff --git a/{path} b/{path}\nnew file mode 100644\n--- /dev/null\n+++ b/{path}\n@@ -0,0 +1,{} @@\n",
        lines.len()
    );
    for l in lines {
        p.push('+');
        p.push_str(l);
        p.push('\n');
    }
    Payload::Object(vec![field("op", text("wiki_patch")), field("value", Payload::Text(p))])
}

fn note(title: &str) -> Payload {
    Payload::Object(vec![field("op", text("add_note")), field("title", text(title))])
}

/// What the planned patches make: every patch here adds one document.
fn tree_of(plan: &FoldPlan, base: &WikiTree) -> WikiTree {
    let mut tree = WikiTree::new();
    if plan.onto_base {
        for f in base.files() {
            tree = tree.with(f.clone());
        }
    }
    for p in &plan.patches {
        let diff = p.text("value").expect("a patch");
        let path = diff.lines().find_map(|l| l.strip_prefix("+++ b/")).expect("path");
        let mut content = String::new();
        for l in diff.lines().skip(5) {
            content.push_str(&l[1..]);
            content.push('\n');
        }
        tree = tree.with(WikiFile { path: path.to_string(), content });
    }
    tree
}

fn folded(
    group: &[AppliedEntry],
    base: &WikiTree,
) -> Result<(Vec<AppliedEntry>, WikiTree), String> {
    let plan = plan_fold(&group.to_vec(), base)?;
    let tree = tree_of(&plan, base);
    Ok((summarize(&plan, &tree), tree))
}

#[test]
fn a_folded_group_is_one_commitment_plus_what_is_not_wiki() {
    let group = vec![
        entry(1, patch("a.md", "A")),
        entry(2, note("keep me")),
        entry(3, patch("b.md", "B")),
    ];
    let (folded, tree) = folded(&group, &WikiTree::new()).expect("folds");
    assert_eq!(tree.len(), 2, "both documents are in the tree");
    assert_eq!(folded.len(), 2, "one commitment, one kept entry");
    assert_eq!(folded[0].id, BASE_ENTRY_ID);
    assert_eq!(folded[0].payload.text("op").map(String::as_str), Some("wiki_base"));
    assert_eq!(folded[1], group[1], "a non-wiki entry is not touched");
    let (hash, size) = commitment(&tree);
    assert_eq!(folded[0].payload.text("hash"), Some(&hash));
    assert_eq!(folded[0].payload.count("size"), Some(size));
    assert_eq!(base_commitment_of(&folded[0].payload), Some((hash, size)));
    assert_eq!(base_commitment_of(&group[0].payload), None);
}

#[test]
fn folding_from_the_genesis_and_from_a_fetched_base_agree() {
    let all = vec![entry(1, patch("a.md", "A")), entry(2, patch("b.md", "B"))];
    let (full, full_tree) = folded(&all, &WikiTree::new()).expect("folds");

    let (first_cut, base) = folded(&all[..1], &WikiTree::new()).expect("folds");
    let mut group = first_cut;
    group.push(entry(2, patch("b.md", "B")));
    let (suffix, suffix_tree) = folded(&group, &base).expect("folds onto the fetched base");
    assert_eq!(full_tree, suffix_tree);
    assert_eq!(full, suffix);
}

#[test]
fn a_missing_base_refuses_the_fold() {
    let (cut, base) = folded(&[entry(1, patch("a.md", "A"))], &WikiTree::new()).expect("folds");
    let err = folded(&cut, &WikiTree::new()).expect_err("empty is not the base");
    let (have, want) = (commitment(&WikiTree::new()).0, commitment(&base).0);
    assert_eq!(
        err,
        format!(
            "the shared memory base this node holds ({have}) is not the committed one ({want})"
        )
    );
    assert!(folded(&cut, &base).is_ok());
    let twice = vec![cut[0].clone(), cut[0].clone()];
    assert_eq!(
        folded(&twice, &base).expect_err("one cut, one base"),
        "the memory group carries two base commitments"
    );
}

fn summary() -> CheckpointState {
    CheckpointState {
        founding_name: "Chess Club".to_string(),
        rule_m: 2,
        rule_n: 2,
        founding_identities: Vec::new(),
        agenda: String::new(),
        relays: Vec::new(),
        founding_features: None,
        republic_id: "f00".to_string(),
        roster: Vec::new(),
        applied: Vec::new(),
        consumed_ids: Vec::new(),
        anchors: Vec::new(),
        member_relays: Vec::new(),
        upto: 0,
    }
}

#[test]
fn a_republic_without_a_wiki_is_not_worth_folding() {
    let mut s = summary();
    assert!(!worth_folding(&s));
    s.applied = vec![AppliedGroup {
        surface: Surface::Memory,
        entries: vec![entry(1, Payload::Object(vec![field("op", text("add_note"))]))],
    }];
    assert!(!worth_folding(&s));
    s.applied =
        vec![AppliedGroup { surface: Surface::Memory, entries: vec![entry(1, patch("a.md", "A"))] }];
    assert!(worth_folding(&s));
}

#[test]
fn a_state_is_folded_in_its_memory_group() {
    let mut s = summary();
    assert_eq!(plan_state(&s, &WikiTree::new()), Ok(None), "nothing to fold");
    let other = AppliedGroup {
        surface: Surface::Organization,
        entries: vec![entry(7, note("stays"))],
    };
    s.applied = vec![
        other.clone(),
        AppliedGroup { surface: Surface::Memory, entries: vec![entry(1, patch("a.md", "A"))] },
    ];
    let plan = plan_state(&s, &WikiTree::new()).expect("plans").expect("a memory group");
    let tree = tree_of(&plan, &WikiTree::new());
    summarize_state(&mut s, &plan, &tree);
    assert_eq!(s.applied[0], other);
    assert_eq!(s.applied[1].entries.len(), 1);
    let (hash, size) = commitment(&tree);
    assert_eq!(base_commitment_of(&s.applied[1].entries[0].payload), Some((hash, size)));
    assert!(worth_folding(&s), "a commitment is wiki content");
}

#[test]
fn a_commitment_is_the_hash_of_the_tree() {
    let (hash, size) = commitment(&WikiTree::new());
    // the mark, then the number of documents
    let mut bytes = b"molt-wiki-base-v1\0".to_vec();
    bytes.resize(size as usize, 0);
    assert!(bytes.len() > 18);
    assert_eq!(hash, content_hash(&bytes));
    let one =
        WikiTree::new().with(WikiFile { path: "a".to_string(), content: "b".to_string() });
    let other =
        WikiTree::new().with(WikiFile { path: "ab".to_string(), content: String::new() });
    assert_ne!(commitment(&one).0, commitment(&other).0);
}
