use gittask::codec::{decode_action, decode_task, encode_action, encode_task};
use gittask::config::normalize_ref_path;
use gittask::connectors::{
    get_config_options_from_connectors, get_matching_remote_connectors, RemoteConnector,
    RemoteTaskState,
};
use gittask::decimal::{parse_dec_id, u64_to_dec};
use gittask::{Comment, Label, Task, TaskAction};

#[test]
fn decimal_renders_and_reads() {
    assert_eq!(u64_to_dec(0), "0");
    assert_eq!(u64_to_dec(7), "7");
    assert_eq!(u64_to_dec(120), "120");
    assert_eq!(u64_to_dec(9223372036854775807), "9223372036854775807");
    assert_eq!(parse_dec_id("0"), Some(0));
    assert_eq!(parse_dec_id("007"), Some(7));
    assert_eq!(parse_dec_id("9223372036854775807"), Some(9223372036854775807));
    assert_eq!(parse_dec_id("9223372036854775808"), None);
    assert_eq!(parse_dec_id(""), None);
    assert_eq!(parse_dec_id("12a"), None);
    assert_eq!(parse_dec_id("action-1"), None);
}

#[test]
fn task_codec_round_trip() {
    let mut task = Task::new(
        "A \"quoted\" name\n".to_string(),
        "tabs\tand\\slashes".to_string(),
        "OPEN".to_string(),
        Some("dev".to_string()),
    )
    .unwrap();
    task.set_id("12".to_string());
    task.add_comment(
        Some("1".to_string()),
        vec![("created".to_string(), "5".to_string())],
        "body\r\n".to_string(),
        Some("dev".to_string()),
    );
    task.add_label("bug".to_string(), None, Some("red".to_string()));
    let blob = encode_task(&task);
    let back = decode_task(&blob).unwrap();
    assert_eq!(back.get_id(), task.get_id());
    assert_eq!(back.get_all_properties(), task.get_all_properties());
    let bc = back.get_comments().as_ref().unwrap();
    let tc = task.get_comments().as_ref().unwrap();
    assert_eq!(bc.len(), tc.len());
    assert_eq!(bc[0].get_id(), tc[0].get_id());
    assert_eq!(bc[0].get_all_properties(), tc[0].get_all_properties());
    assert_eq!(bc[0].get_text(), tc[0].get_text());
    let bl = back.get_labels().as_ref().unwrap();
    assert_eq!(bl.len(), 1);
    assert_eq!(bl[0].get_name(), "bug");
    assert_eq!(bl[0].get_color(), "red");
    assert_eq!(bl[0].get_description(), None);
    // a second trip through the codec is the identity on the text
    assert_eq!(encode_task(&back), blob);
}

#[test]
fn minimal_task_codec_round_trip() {
    let task = Task::new("A".to_string(), "".to_string(), "OPEN".to_string(), None).unwrap();
    let blob = encode_task(&task);
    let back = decode_task(&blob).unwrap();
    assert_eq!(back.get_id(), None);
    assert_eq!(back.get_all_properties(), task.get_all_properties());
    assert!(back.get_comments().is_none());
    assert!(back.get_labels().is_none());
}

#[test]
fn task_decode_rejects_garbage() {
    assert!(decode_task("").is_none());
    assert!(decode_task("{}").is_none());
    assert!(decode_task("not json").is_none());
    assert!(decode_task("{\"props\":{").is_none());
}

#[test]
fn action_codec_round_trip_and_fallback() {
    let actions = [
        TaskAction::TaskCreate,
        TaskAction::UpdateStatus,
        TaskAction::SetProperty,
        TaskAction::EditProperty,
        TaskAction::DeleteProperty,
        TaskAction::SearchReplaceProperty,
        TaskAction::AddComment,
        TaskAction::DeleteComment,
        TaskAction::AddLabel,
        TaskAction::UpdateLabel,
        TaskAction::DeleteLabel,
        TaskAction::UnknownUpdate,
    ];
    for a in actions {
        let blob = encode_action(&a);
        assert_eq!(decode_action(&blob), Some(a));
    }
    assert_eq!(encode_action(&TaskAction::TaskCreate), "\"TaskCreate\"");
    assert_eq!(decode_action("\"SomeFutureAction\""), Some(TaskAction::UnknownUpdate));
    assert_eq!(decode_action("TaskCreate"), None);
}

#[test]
fn task_requires_name_and_status() {
    assert!(Task::new("".to_string(), "d".to_string(), "OPEN".to_string(), None).is_err());
    assert!(Task::new("n".to_string(), "d".to_string(), "".to_string(), None).is_err());
    let err = match Task::new("".to_string(), "".to_string(), "".to_string(), None) {
        Err(e) => e,
        Ok(_) => panic!("an empty name and status must be rejected"),
    };
    assert_eq!(err, "Name or status is empty");
    assert!(Task::from_properties("1".to_string(), vec![]).is_err());
    let props = vec![
        ("name".to_string(), "n".to_string()),
        ("status".to_string(), "OPEN".to_string()),
    ];
    let t = Task::from_properties("1".to_string(), props).unwrap();
    assert_eq!(t.get_id(), Some("1".to_string()));
    assert!(t.has_property("created"));
}

#[test]
fn task_property_comment_label_edits() {
    let mut t = Task::new("n".to_string(), "d".to_string(), "OPEN".to_string(), None).unwrap();
    assert!(!t.has_property("extra"));
    t.set_property("extra", "1");
    assert_eq!(t.get_property("extra").unwrap(), "1");
    t.set_property("extra", "2");
    assert_eq!(t.get_property("extra").unwrap(), "2");
    assert!(t.delete_property("extra"));
    assert!(!t.delete_property("extra"));

    assert_eq!(
        t.delete_comment(&"1".to_string()).unwrap_err(),
        "Task has no comments"
    );
    let c = t.add_comment(None, vec![], "first".to_string(), None);
    assert_eq!(c.get_id().unwrap(), "1");
    let c2 = t.add_comment(None, vec![], "second".to_string(), None);
    assert_eq!(c2.get_id().unwrap(), "2");
    assert_eq!(
        t.delete_comment(&"9".to_string()).unwrap_err(),
        "Comment ID 9 not found"
    );
    assert!(t.delete_comment(&"1".to_string()).is_ok());
    assert_eq!(t.get_comments().as_ref().unwrap().len(), 1);

    assert_eq!(t.delete_label("x").unwrap_err(), "Task has no labels");
    t.add_label("x".to_string(), None, Some("blue".to_string()));
    assert_eq!(
        t.delete_label("y").unwrap_err(),
        "Label with name 'y' not found"
    );
    assert!(t.get_label_by_name("x").is_some());
    assert!(t.get_label_by_name("y").is_none());
    assert!(t.delete_label("x").is_ok());

    let mut label = Label::new("l".to_string(), None, None);
    assert_eq!(label.get_color(), "");
    label.set_color("green".to_string());
    assert_eq!(label.get_color(), "green");
    label.set_description("desc".to_string());
    assert_eq!(label.get_description(), Some("desc".to_string()));

    let mut comment = Comment::new("3".to_string(), vec![], "text".to_string());
    assert_eq!(comment.get_text(), "text");
    comment.set_text("other".to_string());
    assert_eq!(comment.get_text(), "other");
    comment.set_id("4".to_string());
    assert_eq!(comment.get_id(), Some("4".to_string()));
}

#[test]
fn normalize_ref_path_forms() {
    assert_eq!(normalize_ref_path("test-tasks"), "refs/heads/test-tasks");
    assert_eq!(normalize_ref_path("heads/test-tasks"), "refs/heads/test-tasks");
    assert_eq!(normalize_ref_path("refs/heads/test-tasks"), "refs/heads/test-tasks");
    assert_eq!(normalize_ref_path("/x"), "/x");
    assert_eq!(normalize_ref_path("x/"), "x/");
}

struct FakeConnector {
    tag: &'static str,
    host: &'static str,
    options: Option<Vec<String>>,
}

impl RemoteConnector for FakeConnector {
    // the specification-level values exist only for the verifier; nothing
    // executes them
    fn type_tag_spec(&self) -> vstd::seq::Seq<char> {
        unreachable!()
    }

    fn config_options_spec(&self) -> Option<vstd::seq::Seq<vstd::seq::Seq<char>>> {
        unreachable!()
    }

    fn supports_remote_spec(
        &self,
        _url: vstd::seq::Seq<char>,
    ) -> Option<(vstd::seq::Seq<char>, vstd::seq::Seq<char>)> {
        unreachable!()
    }

    fn type_tag(&self) -> String {
        self.tag.to_string()
    }

    fn get_config_options(&self) -> Option<Vec<String>> {
        self.options.clone()
    }

    fn supports_remote(&self, url: &str) -> Option<(String, String)> {
        let rest = url.strip_prefix(self.host)?;
        let mut parts = rest.splitn(2, '/');
        let user = parts.next()?.to_string();
        let repo = parts.next()?.to_string();
        Some((user, repo))
    }

    fn list_remote_tasks(
        &self,
        _user: &String,
        _repo: &String,
        _with_comments: bool,
        _with_labels: bool,
        _limit: Option<usize>,
        _state: RemoteTaskState,
        _task_statuses: &Vec<String>,
    ) -> Result<Vec<Task>, String> {
        Ok(vec![])
    }

    fn get_remote_task(
        &self,
        _user: &String,
        _repo: &String,
        _task_id: &String,
        _with_comments: bool,
        _with_labels: bool,
        _task_statuses: &Vec<String>,
    ) -> Result<Task, String> {
        Err("no task".to_string())
    }

    fn create_remote_task(&self, _user: &String, _repo: &String, _task: &Task) -> Result<String, String> {
        Ok("1".to_string())
    }

    fn create_remote_comment(
        &self,
        _user: &String,
        _repo: &String,
        _task_id: &String,
        _comment: &Comment,
    ) -> Result<String, String> {
        Ok("1".to_string())
    }

    fn create_remote_label(
        &self,
        _user: &String,
        _repo: &String,
        _task_id: &String,
        _label: &Label,
    ) -> Result<(), String> {
        Ok(())
    }

    fn update_remote_task(
        &self,
        _user: &String,
        _repo: &String,
        _task: &Task,
        _labels: Option<&Vec<Label>>,
        _state: RemoteTaskState,
    ) -> Result<(), String> {
        Ok(())
    }

    fn update_remote_comment(
        &self,
        _user: &String,
        _repo: &String,
        _task_id: &String,
        _comment_id: &String,
        _text: &String,
    ) -> Result<(), String> {
        Ok(())
    }

    fn delete_remote_task(&self, _user: &String, _repo: &String, _task_id: &String) -> Result<(), String> {
        Ok(())
    }

    fn delete_remote_comment(
        &self,
        _user: &String,
        _repo: &String,
        _task_id: &String,
        _comment_id: &String,
    ) -> Result<(), String> {
        Ok(())
    }

    fn delete_remote_label(
        &self,
        _user: &String,
        _repo: &String,
        _task_id: &String,
        _name: &String,
    ) -> Result<(), String> {
        Ok(())
    }
}

#[test]
fn registry_matches_by_type_and_url() {
    let connectors = vec![
        FakeConnector { tag: "github", host: "https://github.com/", options: None },
        FakeConnector {
            tag: "gitlab",
            host: "https://gitlab.com/",
            options: Some(vec!["task.gitlab.url".to_string()]),
        },
        FakeConnector {
            tag: "jira",
            host: "https://jira.example.com/",
            options: Some(vec!["task.jira.url".to_string(), "task.jira.token".to_string()]),
        },
    ];
    let remotes = vec!["https://gitlab.com/me/proj".to_string()];

    let matches = get_matching_remote_connectors(&connectors, &remotes, &None);
    assert_eq!(matches.len(), 1);
    assert_eq!(matches[0].0, 1);
    assert_eq!(matches[0].1, "me");
    assert_eq!(matches[0].2, "proj");

    let filtered =
        get_matching_remote_connectors(&connectors, &remotes, &Some("github".to_string()));
    assert!(filtered.is_empty());

    let both = vec![
        "https://github.com/a/b".to_string(),
        "https://gitlab.com/c/d".to_string(),
    ];
    let all = get_matching_remote_connectors(&connectors, &both, &None);
    assert_eq!(all.len(), 2);
    assert_eq!((all[0].0, all[0].1.as_str(), all[0].2.as_str()), (0, "a", "b"));
    assert_eq!((all[1].0, all[1].1.as_str(), all[1].2.as_str()), (1, "c", "d"));

    let options = get_config_options_from_connectors(&connectors);
    assert_eq!(
        options,
        vec!["task.gitlab.url", "task.jira.url", "task.jira.token"]
    );
}
