use chrono::Datelike;
use asana2taskwarrior::asana::{Reference, Task as SourceTask, TaskMembership, TaskReference};
use asana2taskwarrior::convert::{convert_tasks, convert_tasks_list, get_uuid_by_gid, UuidRegistry};
use asana2taskwarrior::mapping::SectionPriorityMapping;
use asana2taskwarrior::taskwarrior::{Priority, Status, UUID};
use asana2taskwarrior::time::{end_of_day, Date, Timestamp};

fn reference(name: &str) -> Reference {
    Reference { gid: format!("ref-{}", name), resource_type: "reference".to_string(), name: name.to_string() }
}

fn task(gid: &str, name: &str) -> SourceTask {
    SourceTask {
        gid: gid.to_string(),
        name: name.to_string(),
        completed: false,
        completed_at: None,
        created_at: Timestamp { secs: 1_600_000_000, nanos: 0 },
        dependencies: None,
        due_on: None,
        memberships: Vec::new(),
        start_on: None,
        tags: Vec::new(),
        subtasks: None,
    }
}

fn membership(project: &str, section: &str) -> TaskMembership {
    TaskMembership { project: reference(project), section: reference(section) }
}

fn empty_mapping() -> SectionPriorityMapping {
    SectionPriorityMapping { default_mapping: None, mapping: Vec::new() }
}

const JAN_1_2023: Timestamp = Timestamp { secs: 1_672_531_200, nanos: 0 };

#[test]
fn single_root_task() {
    let mut a = task("1", "A");
    a.memberships = vec![membership("P", "S")];
    let mapping = SectionPriorityMapping {
        default_mapping: None,
        mapping: vec![("S".to_string(), Priority::High)],
    };
    let out = convert_tasks(vec![a], &mapping, false, false).unwrap();
    assert_eq!(out.len(), 1);
    assert_eq!(out[0].description, "A");
    assert_eq!(out[0].status, Status::Pending);
    assert_eq!(out[0].priority, Some(Priority::High));
    assert_eq!(out[0].project, Some("P".to_string()));
    assert!(out[0].parent.is_none());
    assert!(out[0].depends.is_none());
    assert!(out[0].end.is_none());
    assert_eq!(out[0].tags, Some(Vec::new()));
}

#[test]
fn completed_root_completes_child() {
    let mut a = task("1", "A");
    a.completed = true;
    a.completed_at = Some(JAN_1_2023);
    a.subtasks = Some(vec![task("2", "B")]);
    let out = convert_tasks(vec![a], &empty_mapping(), false, false).unwrap();
    assert_eq!(out.len(), 2);
    assert_eq!(out[0].description, "A");
    assert_eq!(out[1].description, "B");
    for t in &out {
        assert_eq!(t.status, Status::Completed);
        assert_eq!(t.end, Some(JAN_1_2023));
    }
    assert_eq!(out[1].parent, Some(out[0].uuid));
}

#[test]
fn children_become_dependencies() {
    let mut a = task("1", "A");
    a.subtasks = Some(vec![task("2", "B")]);
    let out = convert_tasks(vec![a], &empty_mapping(), true, false).unwrap();
    assert_eq!(out.len(), 2);
    assert_eq!(out[0].depends, Some(out[1].uuid.encode()));
    assert!(out[1].depends.is_none());
}

#[test]
fn children_not_dependencies_by_default() {
    let mut a = task("1", "A");
    a.subtasks = Some(vec![task("2", "B")]);
    let out = convert_tasks(vec![a], &empty_mapping(), false, false).unwrap();
    assert!(out[0].depends.is_none());
}

#[test]
fn priority_inherited_over_own_section() {
    let mut a = task("1", "A");
    a.memberships = vec![membership("P", "Urgent")];
    let mut b = task("2", "B");
    b.memberships = vec![membership("P", "Later")];
    let mut c = task("3", "C");
    c.memberships = vec![membership("P", "Later")];
    b.subtasks = Some(vec![c]);
    a.subtasks = Some(vec![b]);
    let mapping = SectionPriorityMapping {
        default_mapping: Some(Priority::Medium),
        mapping: vec![("Urgent".to_string(), Priority::High), ("Later".to_string(), Priority::Low)],
    };
    let out = convert_tasks(vec![a], &mapping, false, false).unwrap();
    assert_eq!(out.len(), 3);
    for t in &out {
        assert_eq!(t.priority, Some(Priority::High));
    }
}

#[test]
fn project_label_with_section_and_inherited() {
    let mut a = task("1", "A");
    a.memberships = vec![membership("Home", "Kitchen")];
    let mut b = task("2", "B");
    b.memberships = vec![membership("Work", "Desk")];
    a.subtasks = Some(vec![b]);
    let out = convert_tasks(vec![a], &empty_mapping(), false, true).unwrap();
    assert_eq!(out[0].project, Some("Home. Kitchen".to_string()));
    assert_eq!(out[1].project, Some("Home. Kitchen".to_string()));
}

#[test]
fn only_first_membership_counts() {
    let mut a = task("1", "A");
    a.memberships = vec![membership("First", "S1"), membership("Second", "S2")];
    let mapping = SectionPriorityMapping {
        default_mapping: None,
        mapping: vec![("S2".to_string(), Priority::Low)],
    };
    let out = convert_tasks(vec![a], &mapping, false, false).unwrap();
    assert_eq!(out[0].project, Some("First".to_string()));
    assert_eq!(out[0].priority, None);
}

#[test]
fn incomplete_child_of_incomplete_root_stays_pending() {
    let mut a = task("1", "A");
    let mut b = task("2", "B");
    b.completed = true;
    b.completed_at = Some(JAN_1_2023);
    a.subtasks = Some(vec![b]);
    let out = convert_tasks(vec![a], &empty_mapping(), false, false).unwrap();
    assert_eq!(out[0].status, Status::Pending);
    assert_eq!(out[1].status, Status::Completed);
    assert_eq!(out[1].end, Some(JAN_1_2023));
}

#[test]
fn completion_time_without_flag_is_ignored() {
    let mut a = task("1", "A");
    a.completed_at = Some(JAN_1_2023);
    let out = convert_tasks(vec![a], &empty_mapping(), false, false).unwrap();
    assert_eq!(out[0].status, Status::Pending);
    assert!(out[0].end.is_none());
}

#[test]
fn empty_name_skipped_children_kept() {
    let mut root = task("1", "Root");
    root.memberships = vec![membership("P", "S")];
    let mut hidden = task("2", "");
    let mut visible = task("3", "Visible");
    visible.memberships = vec![membership("Other", "T")];
    hidden.subtasks = Some(vec![visible]);
    root.subtasks = Some(vec![hidden]);
    let out = convert_tasks(vec![root], &empty_mapping(), false, false).unwrap();
    assert_eq!(out.len(), 2);
    assert_eq!(out[0].description, "Root");
    assert_eq!(out[1].description, "Visible");
    assert_eq!(out[1].parent, Some(out[0].uuid));
    assert_eq!(out[1].project, Some("P".to_string()));
}

#[test]
fn empty_name_root_children_are_roots() {
    let mut hidden = task("1", "");
    hidden.subtasks = Some(vec![task("2", "X")]);
    let out = convert_tasks(vec![hidden], &empty_mapping(), false, false).unwrap();
    assert_eq!(out.len(), 1);
    assert_eq!(out[0].description, "X");
    assert!(out[0].parent.is_none());
}

#[test]
fn skipped_task_identity_still_referenced() {
    let mut a = task("1", "A");
    a.dependencies = Some(vec![TaskReference { gid: "9".to_string(), resource_type: "task".to_string() }]);
    let mut skipped = task("9", "");
    skipped.subtasks = Some(vec![task("10", "C")]);
    let mut c_dep = task("11", "D");
    c_dep.dependencies = Some(vec![TaskReference { gid: "10".to_string(), resource_type: "task".to_string() }]);
    let out = convert_tasks(vec![a, skipped, c_dep], &empty_mapping(), false, false).unwrap();
    assert_eq!(out.len(), 3);
    assert!(out[0].depends.is_some());
    assert_eq!(out[2].depends, Some(out[1].uuid.encode()));
}

#[test]
fn dependencies_deduplicated_and_forward() {
    let mut a = task("1", "A");
    let dep = TaskReference { gid: "2".to_string(), resource_type: "task".to_string() };
    a.dependencies = Some(vec![dep.clone(), dep]);
    let b = task("2", "B");
    let out = convert_tasks(vec![a, b], &empty_mapping(), false, false).unwrap();
    assert_eq!(out[0].depends, Some(out[1].uuid.encode()));
}

#[test]
fn due_date_end_of_day_and_tags() {
    let mut a = task("1", "A");
    a.due_on = Some(Date { days_from_ce: 738_521 });
    a.tags = vec![reference("home"), reference("phone")];
    a.start_on = Some(JAN_1_2023);
    let out = convert_tasks(vec![a], &empty_mapping(), false, false).unwrap();
    assert_eq!(out[0].due, Some(Timestamp { secs: 1_672_617_599, nanos: 999_000_000 }));
    assert_eq!(out[0].tags, Some(vec!["home".to_string(), "phone".to_string()]));
    assert_eq!(out[0].start, Some(JAN_1_2023));
    assert_eq!(out[0].entry, Timestamp { secs: 1_600_000_000, nanos: 0 });
}

#[test]
fn end_of_day_matches_calendar() {
    let d = chrono::NaiveDate::from_ymd_opt(2024, 2, 29).unwrap();
    let expected = d.and_hms_milli_opt(23, 59, 59, 999).unwrap().and_utc();
    let got = end_of_day(Date { days_from_ce: d.num_days_from_ce() });
    assert_eq!(got.secs, expected.timestamp());
    assert_eq!(got.nanos, expected.timestamp_subsec_nanos());
}

#[test]
fn end_of_day_epoch() {
    let got = end_of_day(Date { days_from_ce: 719_163 });
    assert_eq!(got, Timestamp { secs: 86_399, nanos: 999_000_000 });
}

#[test]
fn empty_input_gives_empty_output() {
    let out = convert_tasks(Vec::new(), &empty_mapping(), true, true).unwrap();
    assert!(out.is_empty());
}

#[test]
fn identities_distinct_per_task() {
    let out = convert_tasks(vec![task("1", "A"), task("2", "B")], &empty_mapping(), false, false).unwrap();
    assert_ne!(out[0].uuid, out[1].uuid);
}

#[test]
fn registry_resolves_stably() {
    let mut reg = UuidRegistry::new();
    let a1 = get_uuid_by_gid(&mut reg, "g1");
    let b = get_uuid_by_gid(&mut reg, "g2");
    let a2 = get_uuid_by_gid(&mut reg, "g1");
    assert_eq!(a1, a2);
    assert_ne!(a1, b);
    assert_eq!(reg.get(&"g1".to_string()), Some(a1));
    assert_eq!(reg.get(&"missing".to_string()), None);
}

#[test]
fn fresh_identity_is_version_four() {
    let mut reg = UuidRegistry::new();
    let u: UUID = get_uuid_by_gid(&mut reg, "g");
    assert_eq!((u.uuid >> 76) & 0xf, 4);
    assert_eq!((u.uuid >> 62) & 0x3, 2);
}

#[test]
fn child_looks_up_priority_when_parent_has_none() {
    let mut a = task("1", "A");
    let mut b = task("2", "B");
    b.memberships = vec![membership("P", "S")];
    a.subtasks = Some(vec![b]);
    let mapping = SectionPriorityMapping {
        default_mapping: None,
        mapping: vec![("S".to_string(), Priority::High)],
    };
    let out = convert_tasks(vec![a], &mapping, false, false).unwrap();
    assert_eq!(out[0].priority, None);
    assert_eq!(out[1].priority, Some(Priority::High));
}

#[test]
fn list_conversion_registers_during_walk() {
    let mut reg = UuidRegistry::new();
    let known = get_uuid_by_gid(&mut reg, "2");
    let mut a = task("1", "A");
    a.dependencies = Some(vec![TaskReference { gid: "3".to_string(), resource_type: "task".to_string() }]);
    let tasks = vec![a, task("2", "B"), task("3", "C")];
    let mut out = Vec::new();
    convert_tasks_list(&tasks, &mut reg, &None, &mut out, &empty_mapping(), false, false);
    assert_eq!(out.len(), 3);
    assert_eq!(out[1].uuid, known);
    assert_eq!(out[0].depends, Some(out[2].uuid.encode()));
    assert_eq!(reg.get(&"1".to_string()), Some(out[0].uuid));
}

#[test]
fn list_conversion_under_parent_context() {
    let mut reg = UuidRegistry::new();
    let parent = Some((UUID::new(7), Some(Priority::Low), Some(JAN_1_2023), Some("Proj".to_string())));
    let mut b = task("2", "B");
    b.memberships = vec![membership("Other", "S")];
    let mut out = Vec::new();
    convert_tasks_list(&vec![b], &mut reg, &parent, &mut out, &empty_mapping(), false, true);
    assert_eq!(out.len(), 1);
    assert_eq!(out[0].parent, Some(UUID::new(7)));
    assert_eq!(out[0].priority, Some(Priority::Low));
    assert_eq!(out[0].status, Status::Completed);
    assert_eq!(out[0].end, Some(JAN_1_2023));
    assert_eq!(out[0].project, Some("Proj".to_string()));
}
