use portmod::conflicts;
use portmod::detect;
use portmod::distinct_names;
use portmod::report;
use portmod::ConflictEntry;
use portmod::Group;

fn group(name: &str, members: &[&str]) -> Group {
    Group {
        name: name.to_string(),
        members: members.iter().map(|m| m.to_string()).collect(),
    }
}

fn entry_pairs(entries: &[ConflictEntry]) -> Vec<(String, Vec<String>)> {
    entries
        .iter()
        .map(|e| (e.member.clone(), e.groups.clone()))
        .collect()
}

#[test]
fn disjoint_groups_detect_nothing() {
    let groups = vec![
        group("ModA", &["a.txt", "b.txt"]),
        group("ModB", &["c.txt", "d.txt"]),
        group("ModC", &["e.txt"]),
    ];
    let entries = detect(&groups);
    assert_eq!(entries.len(), 0);
    let r = conflicts("Directories", "Files", &groups);
    assert!(r.is_ok());
}

#[test]
fn exact_owner_groups_for_shared_member() {
    let groups = vec![
        group("G1", &["shared", "only1"]),
        group("G2", &["only2"]),
        group("G3", &["shared"]),
        group("G4", &["shared", "only4"]),
        group("G5", &["only5"]),
    ];
    let entries = detect(&groups);
    assert_eq!(entries.len(), 1);
    assert_eq!(entries[0].member, "shared");
    assert_eq!(entries[0].groups, vec!["G1", "G3", "G4"]);
}

#[test]
fn detect_twice_identical() {
    let groups = vec![
        group("ModA", &["x.txt", "y.txt", "z.txt"]),
        group("ModB", &["y.txt", "z.txt"]),
        group("ModC", &["z.txt", "w.txt"]),
    ];
    let first = entry_pairs(&detect(&groups));
    let second = entry_pairs(&detect(&groups));
    assert_eq!(first, second);
}

#[test]
fn reordering_keeps_members_and_group_sets() {
    let order1 = vec![
        group("ModA", &["x.txt", "y.txt"]),
        group("ModB", &["y.txt", "z.txt"]),
        group("ModC", &["y.txt", "x.txt"]),
    ];
    let order2 = vec![
        group("ModC", &["y.txt", "x.txt"]),
        group("ModA", &["x.txt", "y.txt"]),
        group("ModB", &["y.txt", "z.txt"]),
    ];
    let e1 = detect(&order1);
    let e2 = detect(&order2);
    let members1: Vec<String> = e1.iter().map(|e| e.member.clone()).collect();
    let members2: Vec<String> = e2.iter().map(|e| e.member.clone()).collect();
    assert_eq!(members1, members2);
    for (a, b) in e1.iter().zip(e2.iter()) {
        let mut ga = a.groups.clone();
        let mut gb = b.groups.clone();
        ga.sort();
        gb.sort();
        assert_eq!(ga, gb);
    }
    assert_eq!(members1, vec!["x.txt", "y.txt"]);
    assert_eq!(e1[0].groups, vec!["ModA", "ModC"]);
    assert_eq!(e2[0].groups, vec!["ModC", "ModA"]);
    assert_eq!(e1[1].groups, vec!["ModA", "ModB", "ModC"]);
    assert_eq!(e2[1].groups, vec!["ModC", "ModA", "ModB"]);
}

#[test]
fn example_two_groups() {
    let groups = vec![
        group("ModA", &["x.txt", "y.txt"]),
        group("ModB", &["y.txt", "z.txt"]),
    ];
    let entries = detect(&groups);
    assert_eq!(entries.len(), 1);
    assert_eq!(entries[0].member, "y.txt");
    assert_eq!(entries[0].groups, vec!["ModA", "ModB"]);
}

#[test]
fn example_three_groups() {
    let groups = vec![
        group("First", &["readme.txt"]),
        group("Second", &["readme.txt"]),
        group("Third", &["readme.txt"]),
    ];
    let entries = detect(&groups);
    assert_eq!(entries.len(), 1);
    assert_eq!(entries[0].member, "readme.txt");
    assert_eq!(entries[0].groups, vec!["First", "Second", "Third"]);
}

#[test]
fn members_sorted_lexicographically() {
    let groups = vec![
        group("ModA", &["c", "a", "b"]),
        group("ModB", &["b", "c", "a"]),
    ];
    let entries = detect(&groups);
    let members: Vec<String> = entries.iter().map(|e| e.member.clone()).collect();
    assert_eq!(members, vec!["a", "b", "c"]);
}

#[test]
fn scale_many_groups_low_overlap() {
    let mut groups = Vec::new();
    for g in 0..50 {
        let mut members = Vec::new();
        for m in 0..198 {
            members.push(format!("group{}/file{}", g, m));
        }
        members.push(format!("shared{}", g % 25));
        members.push(format!("shared{}", (g + 1) % 25));
        groups.push(Group {
            name: format!("Mod{}", g),
            members,
        });
    }
    let entries = detect(&groups);
    assert_eq!(entries.len(), 25);
    for e in &entries {
        assert_eq!(e.groups.len(), 4);
    }
}

#[test]
fn report_empty_succeeds() {
    let r = report("Directories", "Files", Vec::new());
    assert!(r.is_ok());
}

#[test]
fn report_renders_message() {
    let entries = vec![ConflictEntry {
        member: "shared/texture.dds".to_string(),
        groups: vec!["ModA".to_string(), "ModB".to_string()],
    }];
    let r = report("Directories", "Files", entries);
    let err = r.err().unwrap();
    assert_eq!(err.group_label, "Directories");
    assert_eq!(err.member_label, "Files");
    assert_eq!(err.entries.len(), 1);
    assert_eq!(
        err.message,
        "Files conflicts found:\n  shared/texture.dds: ModA, ModB"
    );
}

#[test]
fn conflicts_error_payload() {
    let groups = vec![
        group("ModA", &["x.txt", "y.txt"]),
        group("ModB", &["y.txt", "z.txt"]),
        group("ModC", &["x.txt"]),
    ];
    let err = conflicts("Directories", "Files", &groups).err().unwrap();
    assert_eq!(err.group_label, "Directories");
    assert_eq!(err.member_label, "Files");
    let pairs = entry_pairs(&err.entries);
    assert_eq!(
        pairs,
        vec![
            ("x.txt".to_string(), vec!["ModA".to_string(), "ModC".to_string()]),
            ("y.txt".to_string(), vec!["ModA".to_string(), "ModB".to_string()]),
        ]
    );
    assert_eq!(
        err.message,
        "Files conflicts found:\n  x.txt: ModA, ModC\n  y.txt: ModA, ModB"
    );
}

#[test]
fn distinct_names_checker() {
    let unique = vec![group("A", &[]), group("B", &[]), group("C", &[])];
    assert!(distinct_names(&unique));
    let duplicated = vec![group("A", &[]), group("B", &[]), group("A", &[])];
    assert!(!distinct_names(&duplicated));
}
