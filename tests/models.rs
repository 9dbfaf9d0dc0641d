use attache::models::{BriefCase, Profile, SocialMedia, Task};

#[test]
fn profile_test_profile_new() {
    let name = String::from("Test User");
    let path = String::from("/home/user/data");

    let profile = Profile::new(name.clone(), path.clone());

    assert_eq!(profile.profile_name, name);
    assert_eq!(profile.profile_path, path);

    assert!(profile.profile_id != 0);
}

#[test]
fn profile_test_get_all_brief_case_ids() {
    let profile = Profile::new("Alice".to_string(), "/tmp".to_string());
    let target_id = profile.profile_id;
    let other_id = uuid::Uuid::new_v4().as_u128();

    let bf1 = BriefCase::new("bf1".to_string(), SocialMedia::Instagram, target_id, "example1".to_string());
    let bf2 = BriefCase::new("bf2".to_string(), SocialMedia::Instagram, other_id, "example1".to_string());
    let bf3 = BriefCase::new("bf2".to_string(), SocialMedia::Instagram, target_id, "example1".to_string());

    let cases = vec![bf1, bf2, bf3];

    let result_ids = profile.get_all_brief_case_ids(&cases);

    assert_eq!(result_ids.len(), 2);
    assert_eq!(cases[0].id, result_ids[0]);
    assert_eq!(cases[2].id, result_ids[1]);
}

#[test]
fn profile_test_get_all_brief_case_ids_empty() {
    let profile = Profile::new("Empty".to_string(), "/tmp".to_string());
    let cases: Vec<BriefCase> = vec![];

    let result_ids = profile.get_all_brief_case_ids(&cases);

    assert!(result_ids.is_empty());
}

#[test]
fn test_brief_case_new() {
    let bf1 = BriefCase::new(
        "bf1".to_string(),
        SocialMedia::Instagram,
        uuid::Uuid::new_v4().as_u128(),
        "example1".to_string(),
    );

    assert_eq!(bf1.user_name, "example1");
    assert_eq!(bf1.name, "bf1");
    assert_eq!(bf1.platform, SocialMedia::Instagram);
}

#[test]
fn profile_tests_test_profile_new() {
    let name = String::from("Test User");
    let path = String::from("/home/user/data");

    let profile = Profile::new(name.clone(), path.clone());

    assert_eq!(profile.profile_name, name);
    assert_eq!(profile.profile_path, path);

    assert!(profile.profile_id != 0);
}

#[test]
fn profile_tests_test_get_all_brief_case_ids() {
    let profile = Profile::new("Alice".to_string(), "/tmp".to_string());
    let target_id = profile.profile_id;
    let other_id = uuid::Uuid::new_v4().as_u128();

    let bf1 = BriefCase::new("bf1".to_string(), SocialMedia::Instagram, target_id, "example1".to_string());
    let bf2 = BriefCase::new("bf2".to_string(), SocialMedia::Instagram, other_id, "example1".to_string());
    let bf3 = BriefCase::new("bf2".to_string(), SocialMedia::Instagram, target_id, "example1".to_string());

    let cases = vec![bf1, bf2, bf3];

    let result_ids = profile.get_all_brief_case_ids(&cases);

    assert_eq!(result_ids.len(), 2);
    assert_eq!(cases[0].id, result_ids[0]);
    assert_eq!(cases[2].id, result_ids[1]);
}

#[test]
fn profile_tests_test_get_all_brief_case_ids_empty() {
    let profile = Profile::new("Empty".to_string(), "/tmp".to_string());
    let cases: Vec<BriefCase> = vec![];

    let result_ids = profile.get_all_brief_case_ids(&cases);

    assert!(result_ids.is_empty());
}

#[test]
fn fresh_ids_differ_and_are_not_nil() {
    let a = BriefCase::new("a".to_string(), SocialMedia::X, 1, "a".to_string());
    let b = BriefCase::new("a".to_string(), SocialMedia::X, 1, "a".to_string());
    assert!(a.id != 0);
    assert!(b.id != 0);
    assert_ne!(a.id, b.id);
}

#[test]
fn task_new_keeps_accounts_of_its_platform_in_order() {
    let a1 = BriefCase::new("a1".to_string(), SocialMedia::X, 7, "u1".to_string());
    let a2 = BriefCase::new("a2".to_string(), SocialMedia::Youtube, 7, "u2".to_string());
    let a3 = BriefCase::new("a3".to_string(), SocialMedia::X, 8, "u3".to_string());
    let all = vec![a1.clone(), a2, a3.clone()];
    let task = Task::new("https://x.example/p/1".to_string(), vec!["hi".to_string()], SocialMedia::X, &all);
    assert_eq!(task.briefcase_count(), 2);
    assert_eq!(task.related_brief_cases[0].id, a1.id);
    assert_eq!(task.related_brief_cases[1].id, a3.id);
    assert_eq!(task.comment_index, 0);
    assert_eq!(task.link, "https://x.example/p/1");
    assert!(task.task_id != 0);
}

#[test]
fn task_new_with_no_matching_account() {
    let a1 = BriefCase::new("a1".to_string(), SocialMedia::Facebook, 7, "u1".to_string());
    let task = Task::new("l".to_string(), vec![], SocialMedia::Instagram, &[a1]);
    assert_eq!(task.briefcase_count(), 0);
}

#[test]
fn platform_names() {
    assert_eq!(SocialMedia::Youtube.name(), "Youtube");
    assert_eq!(SocialMedia::X.name(), "X");
    assert_eq!(SocialMedia::Instagram.name(), "Instagram");
    assert_eq!(SocialMedia::Facebook.name(), "Facebook");
}
