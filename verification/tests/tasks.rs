use todo_tasks::TodoError;
use todo_tasks::codec;
use todo_tasks::store::Tasks;
use todo_tasks::task::Task;

fn task(id: &str, title: &str, description: &str, is_done: bool) -> Task {
    Task::new(
        String::from(id),
        String::from(title),
        String::from(description),
        is_done,
    )
}

fn store_with(tasks: Vec<Task>) -> Tasks {
    let text = codec::encode(&tasks);
    let mut store = Tasks::new(String::from("unused.csv"));
    store.load(Some(&text)).unwrap();
    store
}

fn assert_same_tasks(a: &[Task], b: &[Task]) {
    assert_eq!(a.len(), b.len());
    for (x, y) in a.iter().zip(b.iter()) {
        assert_eq!(x.id, y.id);
        assert_eq!(x.title, y.title);
        assert_eq!(x.description, y.description);
        assert_eq!(x.is_done, y.is_done);
    }
}

#[test]
fn round_trip_empty() {
    let tasks: Vec<Task> = Vec::new();
    let text = codec::encode(&tasks);
    let back = codec::decode(&text).unwrap();
    assert_eq!(back.len(), 0);
}

#[test]
fn round_trip_one() {
    let tasks = vec![task("abc12345", "Buy milk", "Two liters", false)];
    let text = codec::encode(&tasks);
    let back = codec::decode(&text).unwrap();
    assert_same_tasks(&tasks, &back);
}

#[test]
fn round_trip_many_with_delimiters() {
    let tasks = vec![
        task("id000001", "a,b,c", "commas, everywhere,", false),
        task("id000002", "say \"hi\"", "a \"quoted\" word", true),
        task("id000003", "line one\nline two", "tab\there\r\nand more", false),
        task("id000004", "", "", true),
        task("id000005", "\",\"", "\"\"", false),
    ];
    let text = codec::encode(&tasks);
    let back = codec::decode(&text).unwrap();
    assert_same_tasks(&tasks, &back);
}

#[test]
fn encode_exact_text() {
    let tasks = vec![task("abc12345", "Buy milk", "Two liters", false)];
    let text = codec::encode(&tasks);
    assert_eq!(
        text,
        "id,title,description,is_done\n\"abc12345\",\"Buy milk\",\"Two liters\",false\n"
    );
}

#[test]
fn encode_escapes_quotes_exactly() {
    let tasks = vec![task("q", "say \"hi\"", "x", true)];
    let text = codec::encode(&tasks);
    assert_eq!(
        text,
        "id,title,description,is_done\n\"q\",\"say \"\"hi\"\"\",\"x\",true\n"
    );
}

#[test]
fn decode_empty_text_is_empty_collection() {
    let back = codec::decode("").unwrap();
    assert_eq!(back.len(), 0);
}

#[test]
fn decode_header_only_is_empty_collection() {
    let back = codec::decode("id,title,description,is_done\n").unwrap();
    assert_eq!(back.len(), 0);
}

#[test]
fn decode_wrong_field_count_fails() {
    let text = "id,title,description,is_done\n\"a\",\"b\"\n";
    assert_eq!(codec::decode(text).unwrap_err(), TodoError::DecodeError);
}

#[test]
fn decode_bad_bool_fails() {
    let text = "id,title,description,is_done\n\"a\",\"b\",\"c\",maybe\n";
    assert_eq!(codec::decode(text).unwrap_err(), TodoError::DecodeError);
}

#[test]
fn decode_bad_header_fails() {
    let text = "id;title;description;is_done\n";
    assert_eq!(codec::decode(text).unwrap_err(), TodoError::DecodeError);
}

#[test]
fn decode_unterminated_quote_fails() {
    let text = "id,title,description,is_done\n\"a\",\"b";
    assert_eq!(codec::decode(text).unwrap_err(), TodoError::DecodeError);
}

#[test]
fn uniqueness_under_growth() {
    let mut store = Tasks::new(String::from("unused.csv"));
    store.load(None).unwrap();
    for k in 0..30 {
        let msg = store.add_task(format!("title {}", k), format!("desc {}", k));
        assert_eq!(msg, "The task was successfully added.");
    }
    let tasks = store.tasks();
    assert_eq!(tasks.len(), 30);
    for t in tasks.iter() {
        assert_eq!(t.id.chars().count(), 8);
        assert!(t.id.chars().all(|c| c.is_ascii_alphanumeric()));
    }
    for p in 0..tasks.len() {
        for q in (p + 1)..tasks.len() {
            assert_ne!(tasks[p].id, tasks[q].id, "two generated ids collided");
        }
    }
}

#[test]
fn empty_file_bootstrap() {
    let mut store = Tasks::new(String::from("unused.csv"));
    store.load(None).unwrap();
    assert_eq!(store.tasks().len(), 0);
    store.add_task(String::from("first"), String::from("one and only"));
    assert_eq!(store.tasks().len(), 1);
    let t = &store.tasks()[0];
    assert_eq!(t.title, "first");
    assert_eq!(t.description, "one and only");
    assert!(!t.is_done);
    let written = store.save();
    let back = codec::decode(&written).unwrap();
    assert_eq!(back.len(), 1);
    assert_eq!(back[0].title, "first");
}

#[test]
fn partial_edit_title_only() {
    let mut store = store_with(vec![
        task("aaaaaaaa", "old title", "old desc", true),
        task("bbbbbbbb", "other", "other desc", false),
    ]);
    let msg = store
        .edit_task(
            &String::from("aaaaaaaa"),
            Some(String::from("new title")),
            None,
            None,
        )
        .unwrap();
    assert_eq!(msg, "The task was successfully edited.");
    let t = &store.tasks()[0];
    assert_eq!(t.id, "aaaaaaaa");
    assert_eq!(t.title, "new title");
    assert_eq!(t.description, "old desc");
    assert!(t.is_done);
    let other = &store.tasks()[1];
    assert_eq!(other.title, "other");
}

#[test]
fn edit_no_fields_is_identity() {
    let before = vec![task("aaaaaaaa", "title", "desc", false)];
    let mut store = store_with(vec![task("aaaaaaaa", "title", "desc", false)]);
    let saved_before = store.save();
    store
        .edit_task(&String::from("aaaaaaaa"), None, None, None)
        .unwrap();
    assert_same_tasks(&before, store.tasks());
    assert_eq!(store.save(), saved_before);
}

#[test]
fn edit_is_done_only() {
    let mut store = store_with(vec![task("aaaaaaaa", "title", "desc", false)]);
    store
        .edit_task(&String::from("aaaaaaaa"), None, None, Some(true))
        .unwrap();
    let t = &store.tasks()[0];
    assert_eq!(t.title, "title");
    assert_eq!(t.description, "desc");
    assert!(t.is_done);
}

#[test]
fn edit_not_found_is_error() {
    let mut store = store_with(vec![task("aaaaaaaa", "title", "desc", false)]);
    let saved_before = store.save();
    let err = store
        .edit_task(
            &String::from("nonexistent-id"),
            Some(String::from("x")),
            None,
            None,
        )
        .unwrap_err();
    assert_eq!(err, TodoError::NotFoundError);
    assert_eq!(store.save(), saved_before);
}

#[test]
fn remove_not_found_is_error() {
    let mut store = store_with(vec![task("aaaaaaaa", "title", "desc", false)]);
    let saved_before = store.save();
    let err = store.remove_task(&String::from("nonexistent-id")).unwrap_err();
    assert_eq!(err, TodoError::NotFoundError);
    assert_eq!(store.save(), saved_before);
}

#[test]
fn remove_shrinks_by_exactly_one() {
    let mut store = store_with(vec![
        task("aaaaaaaa", "one", "d1", false),
        task("bbbbbbbb", "two", "d2", true),
        task("cccccccc", "three", "d3", false),
    ]);
    let msg = store.remove_task(&String::from("bbbbbbbb")).unwrap();
    assert_eq!(msg, "The task was successfully removed.");
    assert_eq!(store.tasks().len(), 2);
    assert!(store.tasks().iter().all(|t| t.id != "bbbbbbbb"));
    assert_eq!(store.tasks()[0].id, "aaaaaaaa");
    assert_eq!(store.tasks()[1].id, "cccccccc");
    let err = store.remove_task(&String::from("bbbbbbbb")).unwrap_err();
    assert_eq!(err, TodoError::NotFoundError);
}

#[test]
fn remove_filters_every_match() {
    let mut store = store_with(vec![
        task("aaaaaaaa", "one", "d1", false),
        task("aaaaaaaa", "clone", "d2", false),
        task("bbbbbbbb", "two", "d3", false),
    ]);
    store.remove_task(&String::from("aaaaaaaa")).unwrap();
    assert_eq!(store.tasks().len(), 1);
    assert_eq!(store.tasks()[0].id, "bbbbbbbb");
}

#[test]
fn load_replaces_collection() {
    let mut store = store_with(vec![task("aaaaaaaa", "one", "d1", false)]);
    let other = codec::encode(&vec![
        task("bbbbbbbb", "two", "d2", true),
        task("cccccccc", "three", "d3", false),
    ]);
    store.load(Some(&other)).unwrap();
    assert_eq!(store.tasks().len(), 2);
    assert_eq!(store.tasks()[0].id, "bbbbbbbb");
}

#[test]
fn load_malformed_keeps_store_and_errors() {
    let mut store = store_with(vec![task("aaaaaaaa", "one", "d1", false)]);
    let err = store.load(Some("not a task table")).unwrap_err();
    assert_eq!(err, TodoError::DecodeError);
    assert_eq!(store.tasks().len(), 1);
    assert_eq!(store.tasks()[0].id, "aaaaaaaa");
}

#[test]
fn list_renders_cells() {
    let store = store_with(vec![
        task("aaaaaaaa", "water plants", "the ones inside", true),
        task("bbbbbbbb", "call home", "before eight", false),
    ]);
    let table = store.list_task();
    assert!(table.contains("Id"));
    assert!(table.contains("Title"));
    assert!(table.contains("Desc"));
    assert!(table.contains("Is Done"));
    assert!(table.contains("aaaaaaaa"));
    assert!(table.contains("water plants"));
    assert!(table.contains("the ones inside"));
    assert!(table.contains("Yes"));
    assert!(table.contains("No"));
    assert!(table.contains("|"));
}

#[test]
fn error_messages() {
    assert_eq!(TodoError::NotFoundError.message(), "Task not found.");
    assert_eq!(TodoError::DecodeError.message(), "The task file is malformed.");
    assert_eq!(
        TodoError::IOError.message(),
        "The task file could not be accessed."
    );
}

#[test]
fn new_store_keeps_path() {
    let store = Tasks::new(String::from("/tmp/todo/todo.csv"));
    assert_eq!(store.file_path(), "/tmp/todo/todo.csv");
    assert_eq!(store.tasks().len(), 0);
}
