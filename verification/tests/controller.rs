use oboete::folders::{Command, Folders, Message};
use oboete::models::Folder;

fn folder(id: i32, name: &str, studyset_id: i32) -> Folder {
    Folder { id: Some(id), name: String::from(name), studyset_id }
}

#[test]
fn new_controller_is_empty() {
    let f = Folders::new();
    assert_eq!(f.current_studyset_id, None);
    assert!(f.folders.is_empty());
    assert_eq!(f.new_folder.name, "");
}

#[test]
fn open_create_folder_dialog_emits_command() {
    let mut f = Folders::new();
    let cmds = f.update(Message::OpenCreateFolderDialog);
    assert_eq!(cmds, vec![Command::OpenCreateFolderDialog]);
    assert_eq!(f.current_studyset_id, None);
    assert!(f.folders.is_empty());
}

#[test]
fn load_some_requests_folders_without_state_change() {
    let mut f = Folders::new();
    let cmds = f.update(Message::Load(Some(3)));
    assert_eq!(cmds, vec![Command::LoadFolders(3)]);
    // The controller waits for SetFolders; the id itself is not yet cached.
    assert_eq!(f.current_studyset_id, None);
}

#[test]
fn load_none_clears_selection() {
    let mut f = Folders::new();
    f.current_studyset_id = Some(9);
    let cmds = f.update(Message::Load(None));
    assert!(cmds.is_empty());
    assert_eq!(f.current_studyset_id, None);
}

#[test]
fn load_transition_ends_with_no_selection() {
    // Load(Some(a)) -> Load(Some(b)) -> Load(None), with SetFolders in
    // between: the final selection must be None.
    let mut f = Folders::new();
    f.update(Message::Load(Some(1)));
    f.update(Message::SetFolders(vec![folder(10, "alpha", 1)]));
    f.update(Message::Load(Some(2)));
    f.update(Message::SetFolders(vec![folder(20, "beta", 2), folder(21, "gamma", 2)]));
    f.update(Message::Load(None));
    assert_eq!(f.current_studyset_id, None);
}

#[test]
fn set_folders_replaces_wholesale() {
    let mut f = Folders::new();
    f.update(Message::SetFolders(vec![folder(1, "old", 7), folder(2, "older", 7)]));
    let cmds = f.update(Message::SetFolders(vec![folder(3, "new", 7)]));
    assert!(cmds.is_empty());
    assert_eq!(f.folders.len(), 1);
    assert_eq!(f.folders[0].id, Some(3));
    assert_eq!(f.folders[0].name, "new");
    assert_eq!(f.folders[0].studyset_id, 7);
}

#[test]
fn name_input_stores_draft() {
    let mut f = Folders::new();
    let cmds = f.update(Message::NewFolderNameInput(String::from("verbs")));
    assert!(cmds.is_empty());
    assert_eq!(f.new_folder.name, "verbs");
}

#[test]
fn created_resets_draft_and_reloads_current_set() {
    let mut f = Folders::new();
    f.current_studyset_id = Some(7);
    f.update(Message::NewFolderNameInput(String::from("x")));
    assert_eq!(f.new_folder.name, "x");
    let cmds = f.update(Message::Created);
    assert_eq!(f.new_folder.name, "");
    assert_eq!(cmds, vec![Command::LoadFolders(7)]);
}

#[test]
fn open_folder_emits_navigation_command() {
    let mut f = Folders::new();
    let cmds = f.update(Message::OpenFolder(42));
    assert_eq!(cmds, vec![Command::OpenFolder(42)]);
}

#[test]
fn folder_rows_of_seven_folders() {
    let mut f = Folders::new();
    let list: Vec<Folder> = (0..7).map(|i| folder(i, &format!("f{i}"), 1)).collect();
    f.update(Message::SetFolders(list));
    let rows = f.folder_rows();
    assert_eq!(rows.len(), 2);
    assert_eq!(rows[0].len(), 5);
    assert_eq!(rows[1].len(), 2);
    let names: Vec<String> =
        rows.iter().flatten().map(|fl| fl.name.clone()).collect();
    assert_eq!(names, vec!["f0", "f1", "f2", "f3", "f4", "f5", "f6"]);
}

#[test]
fn folder_rows_of_exactly_one_row() {
    let mut f = Folders::new();
    let list: Vec<Folder> = (0..5).map(|i| folder(i, &format!("f{i}"), 1)).collect();
    f.update(Message::SetFolders(list));
    let rows = f.folder_rows();
    assert_eq!(rows.len(), 1);
    assert_eq!(rows[0].len(), 5);
}

#[test]
fn folder_rows_of_no_folders() {
    let f = Folders::new();
    assert!(f.folder_rows().is_empty());
}
