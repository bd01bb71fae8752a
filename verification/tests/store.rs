use ryu_reasoning::policy::Policy;
use ryu_reasoning::store::{arrange, file_name, stamp};

fn policy(id: &str) -> Policy {
    Policy {
        id: id.into(),
        name: format!("Policy {id}"),
        description: String::new(),
        version: 1,
        variables: Vec::new(),
        rules: Vec::new(),
        tests: Vec::new(),
        source_document: None,
        created_at: String::new(),
        updated_at: String::new(),
    }
}

#[test]
fn save_then_get_round_trips_and_bumps_the_version() {
    let saved = stamp(policy("hr"), None, "2026-01-01T00:00:00+00:00");
    assert_eq!(saved.version, 1);
    assert!(!saved.created_at.is_empty());

    let again = stamp(policy("hr"), Some(&saved), "2026-01-02T00:00:00+00:00");
    assert_eq!(again.version, 2, "a save must bump the version");
    assert_eq!(
        again.created_at, saved.created_at,
        "the creation stamp must survive an edit"
    );
    assert_eq!(again.updated_at, "2026-01-02T00:00:00+00:00");
    assert_eq!(again.id, "hr");
}

#[test]
fn traversal_ids_are_refused() {
    for bad in ["../escape", "a/b", "..", "with.dot", ""] {
        assert!(
            file_name(bad).is_err(),
            "id '{bad}' must be rejected before it reaches the filesystem"
        );
    }
}

#[test]
fn ids_name_their_file() {
    assert_eq!(file_name("refund-policy_2"), Ok("refund-policy_2.json".to_string()));
    assert_eq!(file_name(&"a".repeat(64)), Ok(format!("{}.json", "a".repeat(64))));
}

#[test]
fn a_refused_id_says_why() {
    assert_eq!(file_name(""), Err("policy id must be 1–64 characters".to_string()));
    assert_eq!(
        file_name(&"a".repeat(65)),
        Err("policy id must be 1–64 characters".to_string())
    );
    assert_eq!(
        file_name("naïve"),
        Err("policy id may only contain letters, digits, '-' and '_'".to_string())
    );
    assert_eq!(
        file_name(&"é".repeat(40)),
        Err("policy id must be 1–64 characters".to_string()),
        "the length is counted in bytes"
    );
}

#[test]
fn versions_start_at_one_and_stop_at_the_last() {
    let mut p = policy("x");
    p.version = 0;
    assert_eq!(stamp(p, None, "t").version, 1);
    let mut p = policy("x");
    p.version = 9;
    assert_eq!(stamp(p, None, "t").version, 9);
    let mut last = policy("x");
    last.version = u32::MAX;
    assert_eq!(stamp(policy("x"), Some(&last), "t").version, u32::MAX);
}

#[test]
fn listings_ignore_case_and_keep_ties() {
    let named = |id: &str, name: &str| {
        let mut p = policy(id);
        p.name = name.into();
        p
    };
    let listed = arrange(vec![
        named("1", "beta"),
        named("2", "ÄRGER"),
        named("3", "Alpha"),
        named("4", "BETA"),
        named("5", "ärgern"),
        named("6", "alpha"),
    ]);
    let ids: Vec<&str> = listed.iter().map(|p| p.id.as_str()).collect();
    assert_eq!(ids, vec!["3", "6", "1", "4", "2", "5"]);
    assert!(arrange(vec![]).is_empty());
}

#[test]
fn the_only_dot_of_a_file_name_is_that_of_its_extension() {
    let name = file_name("a-b_C9").expect("a name");
    assert_eq!(name.find('.'), Some("a-b_C9".len()));
    assert_eq!(name.rfind('.'), Some("a-b_C9".len()));
    assert!(!name.contains('/') && !name.contains('\\'));
}
