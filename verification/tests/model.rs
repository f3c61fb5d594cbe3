use gittask::{Task, TaskAction, TaskContext};

fn user(context: &TaskContext) -> Option<String> {
    context.get_current_user().unwrap()
}

#[test]
fn test_ref_path() {
    let mut context = TaskContext::new();

    let ref_path = context.get_ref_path();
    assert_eq!(ref_path, "refs/tasks/tasks");
    assert!(context.set_ref_path("refs/heads/test-git-task", true).is_ok());
    assert_eq!(context.get_ref_path(), "refs/heads/test-git-task");
    assert!(context.set_ref_path(&ref_path, true).is_ok());
    assert_eq!(context.get_ref_path(), ref_path);

    assert_eq!(context.commit_count(), 0);
}

#[test]
fn test_create_update_delete_task() {
    let mut context = TaskContext::new();

    let task = Task::new(
        "Test task".to_string(),
        "Description goes here".to_string(),
        "OPEN".to_string(),
        user(&context),
    )
    .unwrap();
    let create_result = context.create_task(task);
    assert!(create_result.is_ok());
    let mut task = create_result.unwrap();
    assert_eq!(task.get_id(), Some("1".to_string()));
    assert_eq!(task.get_property("name").unwrap(), "Test task");
    assert_eq!(task.get_property("description").unwrap(), "Description goes here");
    assert_eq!(task.get_property("status").unwrap(), "OPEN");
    assert!(task.has_property("created"));

    task.set_property("description", "Updated description");
    let comment_props = vec![("author".to_string(), "Some developer".to_string())];
    task.add_comment(None, comment_props, "This is a comment".to_string(), user(&context));
    task.set_property("custom_prop", "Custom content");
    let update_result = context.update_task(task);
    assert!(update_result.is_ok());
    assert_eq!(update_result.unwrap(), "1".to_string());

    let find_result = context.find_task("1");
    assert!(find_result.is_ok());
    let task = find_result.unwrap();
    assert!(task.is_some());
    let task = task.unwrap();
    assert_eq!(task.get_id(), Some("1".to_string()));
    assert_eq!(task.get_property("description").unwrap(), "Updated description");
    let comments = task.get_comments();
    assert!(comments.is_some());
    let comments = comments.as_ref().unwrap();
    assert_eq!(comments.len(), 1);
    let comment = comments.first().unwrap();
    assert_eq!(comment.get_text(), "This is a comment".to_string());
    let author = comment
        .get_all_properties()
        .iter()
        .find(|p| p.0 == "author")
        .map(|p| p.1.clone());
    assert_eq!(author.unwrap(), "Some developer".to_string());
    assert_eq!(task.get_property("custom_prop").unwrap(), "Custom content");

    let delete_result = context.delete_tasks(&vec!["1".to_string()]);
    assert!(delete_result.is_ok());

    let find_result = context.find_task("1");
    assert!(find_result.is_ok());
    assert!(find_result.unwrap().is_none());
}

#[test]
fn test_update_comment_id() {
    let mut context = TaskContext::new();

    let task = Task::new(
        "Test task".to_string(),
        "Description goes here".to_string(),
        "OPEN".to_string(),
        user(&context),
    )
    .unwrap();
    let create_result = context.create_task(task);
    assert!(create_result.is_ok());
    let mut task = create_result.unwrap();

    let comment_props = vec![("author".to_string(), "Some developer".to_string())];
    let comment = task.add_comment(
        Some("1".to_string()),
        comment_props,
        "Test comment".to_string(),
        user(&context),
    );
    assert_eq!(comment.get_id().unwrap(), "1");
    let update_result = context.update_task(task);
    assert!(update_result.is_ok());

    let result = context.update_comment_id("1", "1", "2");
    assert!(result.is_ok());

    let updated_task = context.find_task("1").unwrap().unwrap();
    let updated_comments = updated_task.get_comments().as_ref().unwrap();
    assert_eq!(updated_comments.len(), 1);
    assert_eq!(updated_comments[0].get_id().unwrap(), "2");

    let delete_result = context.delete_tasks(&vec!["1".to_string()]);
    assert!(delete_result.is_ok());
}

#[test]
fn test_get_task_history() {
    let mut context = TaskContext::new();

    let task = Task::new(
        "Test task".to_string(),
        "Description goes here".to_string(),
        "OPEN".to_string(),
        user(&context),
    )
    .unwrap();
    let mut task = context.create_task(task).unwrap();

    task.set_property("status", "IN_PROGRESS");
    context.update_task_v2(task.clone(), Some(TaskAction::UpdateStatus)).unwrap();
    let comment_props = vec![("author".to_string(), "Some developer".to_string())];
    let _ = task.add_comment(
        Some("1".to_string()),
        comment_props,
        "Test comment".to_string(),
        user(&context),
    );
    let task_id = context.update_task_v2(task, Some(TaskAction::AddComment)).unwrap();

    let task_history = context.get_task_history(&task_id);
    assert!(task_history.is_ok());
    let mut task_history = task_history.unwrap();
    assert_eq!((&task_history).len(), 3);
    let expected_task_history: Vec<Option<TaskAction>> = vec![
        Some(TaskAction::TaskCreate),
        Some(TaskAction::UpdateStatus),
        Some(TaskAction::AddComment),
    ];
    assert_eq!(task_history, expected_task_history);

    let latest = task_history.pop().unwrap();
    assert_eq!(latest, Some(TaskAction::AddComment));
}

#[test]
fn test_clear_tasks() {
    let mut context = TaskContext::new();

    let task = Task::new(
        "Test task".to_string(),
        "Description goes here".to_string(),
        "OPEN".to_string(),
        user(&context),
    )
    .unwrap();
    let task = context.create_task(task).unwrap();
    assert_eq!(task.get_id(), Some("1".to_string()));

    let task2 = Task::new(
        "Another task".to_string(),
        "Another description".to_string(),
        "IN_PROGRESS".to_string(),
        user(&context),
    )
    .unwrap();
    let task2 = context.create_task(task2).unwrap();
    assert_eq!(task2.get_id(), Some("2".to_string()));

    let task3 = Task::new(
        "Third task".to_string(),
        "Third description".to_string(),
        "CLOSED".to_string(),
        user(&context),
    )
    .unwrap();
    let task3 = context.create_task(task3).unwrap();
    assert_eq!(task3.get_id(), Some("3".to_string()));

    let clear_result = context.clear_tasks();
    assert!(clear_result.is_ok());
    assert_eq!(clear_result.unwrap(), 3);

    for id in ["1", "2", "3"] {
        let find_result = context.find_task(id);
        assert!(find_result.is_ok());
        assert!(find_result.unwrap().is_none());
    }
}

#[test]
fn scenario_fresh_repo_create() {
    let mut context = TaskContext::new();
    let task = Task::new("A".to_string(), "".to_string(), "OPEN".to_string(), None).unwrap();
    let task = context.create_task(task).unwrap();
    assert_eq!(task.get_id(), Some("1".to_string()));
    let tasks = context.list_tasks().unwrap();
    assert_eq!(tasks.len(), 1);
    let history = context.get_task_history("1").unwrap();
    assert_eq!(history, vec![Some(TaskAction::TaskCreate)]);
}

#[test]
fn scenario_status_then_comment_history() {
    let mut context = TaskContext::new();
    let task = Task::new("A".to_string(), "".to_string(), "OPEN".to_string(), None).unwrap();
    let mut t = context.create_task(task).unwrap();
    t.set_property("status", "IN_PROGRESS");
    context.update_task_v2(t.clone(), Some(TaskAction::UpdateStatus)).unwrap();
    t.add_comment(
        None,
        vec![("author".to_string(), "dev".to_string())],
        "hi".to_string(),
        None,
    );
    context.update_task_v2(t, Some(TaskAction::AddComment)).unwrap();
    let history = context.get_task_history("1").unwrap();
    assert_eq!(
        history,
        vec![
            Some(TaskAction::TaskCreate),
            Some(TaskAction::UpdateStatus),
            Some(TaskAction::AddComment),
        ]
    );
}

#[test]
fn scenario_clear_three_tasks() {
    let mut context = TaskContext::new();
    for name in ["a", "b", "c"] {
        let task =
            Task::new(name.to_string(), "".to_string(), "OPEN".to_string(), None).unwrap();
        context.create_task(task).unwrap();
    }
    assert_eq!(context.clear_tasks().unwrap(), 3);
    assert!(context.find_task("1").unwrap().is_none());
}

#[test]
fn scenario_comment_rename() {
    let mut context = TaskContext::new();
    let mut task = Task::new("A".to_string(), "".to_string(), "OPEN".to_string(), None).unwrap();
    task.add_comment(Some("1".to_string()), vec![], "hello".to_string(), None);
    context.create_task(task).unwrap();
    context.update_comment_id("1", "1", "2").unwrap();
    let task = context.find_task("1").unwrap().unwrap();
    let comments = task.get_comments().as_ref().unwrap();
    assert_eq!(comments.len(), 1);
    assert_eq!(comments[0].get_id().unwrap(), "2");
}

#[test]
fn scenario_move_reference() {
    let mut context = TaskContext::new();
    let task = Task::new("A".to_string(), "".to_string(), "OPEN".to_string(), None).unwrap();
    context.create_task(task).unwrap();
    let old_tip = context.ref_target("refs/tasks/tasks");
    assert!(old_tip.is_some());
    context.set_ref_path("refs/heads/test-tasks", true).unwrap();
    assert_eq!(context.get_ref_path(), "refs/heads/test-tasks");
    assert!(context.ref_target("refs/tasks/tasks").is_none());
    assert_eq!(context.ref_target("refs/heads/test-tasks"), old_tip);
}

#[test]
fn scenario_delete_message_sorted() {
    let mut context = TaskContext::new();
    for name in ["a", "b", "c"] {
        let task =
            Task::new(name.to_string(), "".to_string(), "OPEN".to_string(), None).unwrap();
        context.create_task(task).unwrap();
    }
    let ids = vec!["3".to_string(), "1".to_string(), "2".to_string()];
    context.delete_tasks(&ids).unwrap();
    let last = context.commit_count() - 1;
    assert_eq!(context.commit_message(last).unwrap(), "Delete task 1, 2, 3");
}

#[test]
fn create_then_find_returns_equal_task() {
    let mut context = TaskContext::new();
    let mut task = Task::new(
        "A task".to_string(),
        "with text".to_string(),
        "OPEN".to_string(),
        Some("someone".to_string()),
    )
    .unwrap();
    task.add_comment(Some("1".to_string()), vec![], "note \"quoted\"\n".to_string(), None);
    task.add_label("urgent".to_string(), Some("very".to_string()), None);
    let stored = context.create_task(task).unwrap();
    let found = context.find_task("1").unwrap().unwrap();
    assert_eq!(found.get_id(), stored.get_id());
    assert_eq!(found.get_all_properties(), stored.get_all_properties());
    let fc = found.get_comments().as_ref().unwrap();
    let sc = stored.get_comments().as_ref().unwrap();
    assert_eq!(fc.len(), sc.len());
    assert_eq!(fc[0].get_id(), sc[0].get_id());
    assert_eq!(fc[0].get_text(), sc[0].get_text());
    let fl = found.get_labels().as_ref().unwrap();
    assert_eq!(fl.len(), 1);
    assert_eq!(fl[0].get_name(), "urgent");
    assert_eq!(fl[0].get_color(), "");
    assert_eq!(fl[0].get_description(), Some("very".to_string()));
}

#[test]
fn update_task_id_makes_two_commits() {
    let mut context = TaskContext::new();
    let task = Task::new("A".to_string(), "".to_string(), "OPEN".to_string(), None).unwrap();
    context.create_task(task).unwrap();
    let before = context.commit_count();
    context.update_task_id("1", "7").unwrap();
    assert_eq!(context.commit_count(), before + 2);
    assert!(context.find_task("1").unwrap().is_none());
    let moved = context.find_task("7").unwrap().unwrap();
    assert_eq!(moved.get_id(), Some("7".to_string()));
    let history = context.get_task_history("7").unwrap();
    assert_eq!(history.last().unwrap(), &Some(TaskAction::TaskCreate));
}

#[test]
fn mutators_fail_on_absent_reference() {
    let mut context = TaskContext::new();
    let mut task = Task::new("A".to_string(), "".to_string(), "OPEN".to_string(), None).unwrap();
    task.set_id("1".to_string());
    assert!(context.update_task(task.clone()).is_err());
    assert!(context.clear_tasks().is_err());
    assert!(context.get_next_id().is_err());
    assert!(context.list_tasks().is_err());
    assert!(context.get_task_history("1").is_err());
    assert!(context.find_task("1").unwrap().is_none());
    // create transitions the reference into being
    let mut context2 = TaskContext::new();
    assert!(context2.create_task(task).is_ok());
    assert!(context2.clear_tasks().is_ok());
}

#[test]
fn history_is_bounded_by_ten() {
    let mut context = TaskContext::new();
    let task = Task::new("A".to_string(), "".to_string(), "OPEN".to_string(), None).unwrap();
    let t = context.create_task(task).unwrap();
    for _ in 0..15 {
        context.update_task_v2(t.clone(), Some(TaskAction::SetProperty)).unwrap();
    }
    let history = context.get_task_history("1").unwrap();
    assert_eq!(history.len(), 10);
    assert!(history.iter().all(|a| a.is_some()));
}

#[test]
fn remotes_and_user() {
    let mut context = TaskContext::new();
    context.add_remote("origin".to_string(), "https://example.com/u/r".to_string());
    context.add_remote("backup".to_string(), "https://example.org/u/r".to_string());
    let all = context.list_remotes(&None).unwrap();
    assert_eq!(all, vec!["https://example.com/u/r", "https://example.org/u/r"]);
    let only = context.list_remotes(&Some("backup".to_string())).unwrap();
    assert_eq!(only, vec!["https://example.org/u/r"]);
    assert_eq!(context.get_current_user().unwrap(), None);
    context.set_user(None, Some("dev@example.com".to_string()));
    assert_eq!(context.get_current_user().unwrap(), Some("dev@example.com".to_string()));
    context.set_user(Some("Dev".to_string()), Some("dev@example.com".to_string()));
    assert_eq!(context.get_current_user().unwrap(), Some("Dev".to_string()));
}

#[test]
fn config_values_round_trip() {
    let mut context = TaskContext::new();
    assert!(context.get_config_value("task.list.sort").is_err());
    context.set_config_value("task.list.sort", "id desc").unwrap();
    assert_eq!(context.get_config_value("task.list.sort").unwrap(), "id desc");
    context.set_config_value("task.list.sort", "id asc").unwrap();
    assert_eq!(context.get_config_value("task.list.sort").unwrap(), "id asc");
}

#[test]
fn update_without_action_keeps_history_top() {
    let mut context = TaskContext::new();
    let task = Task::new("A".to_string(), "".to_string(), "OPEN".to_string(), None).unwrap();
    let mut t = context.create_task(task).unwrap();
    t.set_property("description", "changed");
    context.update_task(t).unwrap();
    let history = context.get_task_history("1").unwrap();
    assert_eq!(
        history,
        vec![Some(TaskAction::TaskCreate), Some(TaskAction::TaskCreate)]
    );
}
