//! Message-driven controller for the folder list of the selected study set.
//!
//! The controller performs no I/O itself: `update` consumes one message,
//! mutates the cached state synchronously, and returns the commands the
//! hosting runtime must execute (loads, navigation, dialogs). The runtime
//! feeds results back in as further messages, such as `SetFolders`.

use vstd::prelude::*;

use crate::models::Folder;
use crate::models::FolderView;

verus! {

/// Folders shown per grid row in the folder view.
pub const FOLDERS_PER_ROW: usize = 5;

/// Transient state of an in-progress folder creation: only the candidate
/// name typed so far.
pub struct NewFolderState {
    pub name: String,
}

/// Cached folder-list state for the currently selected study set.
///
/// `folders` is a display snapshot replaced wholesale on reload; the
/// external data store remains the system of record. A `current_studyset_id`
/// of `None` means no study set is selected.
pub struct Folders {
    pub current_studyset_id: Option<i32>,
    pub folders: Vec<Folder>,
    pub new_folder: NewFolderState,
}

/// Mathematical model of the controller state.
#[verifier::ext_equal]
pub struct FoldersView {
    pub current_studyset_id: Option<i32>,
    pub folders: Seq<FolderView>,
    pub new_folder_name: Seq<char>,
}

/// The views of a sequence of folders.
pub open spec fn folder_views(v: Seq<Folder>) -> Seq<FolderView> {
    v.map_values(|f: Folder| f@)
}

impl View for Folders {
    type V = FoldersView;

    open spec fn view(&self) -> FoldersView {
        FoldersView {
            current_studyset_id: self.current_studyset_id,
            folders: folder_views(self.folders@),
            new_folder_name: self.new_folder.name@,
        }
    }
}

/// An inbound event: a user action or externally fetched data.
#[derive(Debug, Clone)]
pub enum Message {
    OpenCreateFolderDialog,
    Created,
    Load(Option<i32>),
    SetFolders(Vec<Folder>),
    NewFolderNameInput(String),
    OpenFolder(i32),
}

/// An effect the controller asks the hosting runtime to perform.
#[derive(Debug, PartialEq, Eq, Structural)]
pub enum Command {
    /// The payload is the study set whose folders should be loaded.
    LoadFolders(i32),
    /// The payload is the folder to open.
    OpenFolder(i32),
    OpenCreateFolderDialog,
}

/// The controller state after processing one message.
pub open spec fn post_state(pre: FoldersView, message: Message) -> FoldersView {
    match message {
        Message::OpenCreateFolderDialog => pre,
        Message::Created => FoldersView { new_folder_name: Seq::empty(), ..pre },
        Message::Load(studyset_id) => match studyset_id {
            Some(_) => pre,
            None => FoldersView { current_studyset_id: None, ..pre },
        },
        Message::SetFolders(list) => FoldersView { folders: folder_views(list@), ..pre },
        Message::NewFolderNameInput(value) => FoldersView { new_folder_name: value@, ..pre },
        Message::OpenFolder(_) => pre,
    }
}

/// The commands emitted while processing one message.
pub open spec fn commands_of(pre: FoldersView, message: Message) -> Seq<Command> {
    match message {
        Message::OpenCreateFolderDialog => seq![Command::OpenCreateFolderDialog],
        Message::Created => seq![Command::LoadFolders(pre.current_studyset_id.unwrap())],
        Message::Load(studyset_id) => match studyset_id {
            Some(set_id) => seq![Command::LoadFolders(set_id)],
            None => Seq::empty(),
        },
        Message::SetFolders(_) => Seq::empty(),
        Message::NewFolderNameInput(_) => Seq::empty(),
        Message::OpenFolder(id) => seq![Command::OpenFolder(id)],
    }
}

impl Folders {
    /// A fresh controller: no study set selected, no folders, empty draft.
    pub fn new() -> (r: Self)
        ensures
            r@.current_studyset_id is None,
            r@.folders == Seq::<FolderView>::empty(),
            r@.new_folder_name == Seq::<char>::empty(),
    {
        let r = Folders {
            current_studyset_id: None,
            folders: Vec::new(),
            new_folder: NewFolderState { name: String::new() },
        };
        proof {
            assert(r@.folders =~= Seq::<FolderView>::empty());
        }
        r
    }

    /// Process one message: mutate the cached state and return the commands
    /// the hosting runtime must perform, exactly as `post_state` and
    /// `commands_of` describe.
    ///
    /// `Created` is only reachable while a study set is selected; receiving
    /// it with none selected is a caller error, excluded by precondition.
    pub fn update(&mut self, message: Message) -> (commands: Vec<Command>)
        requires
            message is Created ==> old(self).current_studyset_id is Some,
        ensures
            final(self)@ == post_state(old(self)@, message),
            commands@ == commands_of(old(self)@, message),
    {
        let mut commands: Vec<Command> = Vec::new();

        match message {
            Message::OpenCreateFolderDialog => {
                commands.push(Command::OpenCreateFolderDialog);
                proof {
                    assert(commands@ =~= seq![Command::OpenCreateFolderDialog]);
                }
            },
            Message::Created => {
                self.new_folder = NewFolderState { name: String::new() };
                commands.push(Command::LoadFolders(self.current_studyset_id.unwrap()));
                proof {
                    assert(self@ =~= post_state(old(self)@, Message::Created));
                    assert(commands@ =~= commands_of(old(self)@, Message::Created));
                }
            },
            Message::Load(studyset_id) => match studyset_id {
                Some(set_id) => {
                    commands.push(Command::LoadFolders(set_id));
                    proof {
                        assert(commands@ =~= seq![Command::LoadFolders(set_id)]);
                    }
                },
                None => {
                    self.current_studyset_id = None;
                    proof {
                        assert(self@ =~= post_state(old(self)@, Message::Load(None)));
                    }
                },
            },
            Message::SetFolders(folders) => {
                self.folders = folders;
            },
            Message::NewFolderNameInput(value) => {
                self.new_folder.name = value;
            },
            Message::OpenFolder(id) => {
                commands.push(Command::OpenFolder(id));
                proof {
                    assert(commands@ =~= seq![Command::OpenFolder(id)]);
                }
            },
        }
        commands
    }

    /// Arrange the cached folders for display: rows of `FOLDERS_PER_ROW`
    /// in insertion order, the last row possibly shorter, no implicit
    /// sorting and no gaps.
    pub fn folder_rows(&self) -> (rows: Vec<Vec<Folder>>)
        ensures
            rows@.len() == (self.folders@.len() + FOLDERS_PER_ROW - 1) as int
                / FOLDERS_PER_ROW as int,
            forall|k: int|
                0 <= k < rows@.len() ==> #[trigger] rows@[k]@ == self.folders@.subrange(
                    k * FOLDERS_PER_ROW as int,
                    if (k + 1) * FOLDERS_PER_ROW as int <= self.folders@.len() {
                        (k + 1) * FOLDERS_PER_ROW as int
                    } else {
                        self.folders@.len() as int
                    },
                ),
    {
        let n = self.folders.len();
        let mut rows: Vec<Vec<Folder>> = Vec::new();
        let mut i: usize = 0;
        while i < n
            invariant
                i <= n,
                n == self.folders@.len(),
                i < n ==> i == FOLDERS_PER_ROW * rows@.len(),
                rows@.len() == (i + FOLDERS_PER_ROW - 1) as int / FOLDERS_PER_ROW as int,
                forall|k: int|
                    0 <= k < rows@.len() ==> #[trigger] rows@[k]@ == self.folders@.subrange(
                        k * FOLDERS_PER_ROW as int,
                        if (k + 1) * FOLDERS_PER_ROW as int <= n {
                            (k + 1) * FOLDERS_PER_ROW as int
                        } else {
                            n as int
                        },
                    ),
            decreases n - i,
        {
            let end = if n - i >= FOLDERS_PER_ROW {
                i + FOLDERS_PER_ROW
            } else {
                n
            };
            let mut row: Vec<Folder> = Vec::new();
            let mut j = i;
            proof {
                assert(row@ =~= self.folders@.subrange(i as int, i as int));
            }
            while j < end
                invariant
                    i <= j <= end <= n,
                    n == self.folders@.len(),
                    row@ == self.folders@.subrange(i as int, j as int),
                decreases end - j,
            {
                let f = self.folders[j].clone();
                proof {
                    assert(self.folders@.subrange(i as int, j + 1) =~= self.folders@.subrange(
                        i as int,
                        j as int,
                    ).push(self.folders@[j as int]));
                }
                row.push(f);
                j += 1;
            }
            let ghost old_rows = rows@;
            let ghost old_i = i as int;
            rows.push(row);
            i = end;
            proof {
                let per = FOLDERS_PER_ROW as int;
                assert(old_i == per * old_rows.len());
                assert forall|k: int| 0 <= k < rows@.len() implies #[trigger] rows@[k]@
                    == self.folders@.subrange(
                    k * per,
                    if (k + 1) * per <= n { (k + 1) * per } else { n as int },
                ) by {
                    if k < old_rows.len() {
                        assert(rows@[k] == old_rows[k]);
                    } else {
                        assert(k == old_rows.len());
                        assert(rows@[k]@ == self.folders@.subrange(old_i, end as int));
                        assert(k * per == old_i) by (nonlinear_arith)
                            requires
                                old_i == per * old_rows.len(),
                                k == old_rows.len(),
                        ;
                        assert((k + 1) * per == old_i + per) by (nonlinear_arith)
                            requires
                                k * per == old_i,
                        ;
                    }
                }
                assert(rows@.len() == (i + FOLDERS_PER_ROW - 1) as int / FOLDERS_PER_ROW as int)
                    by (nonlinear_arith)
                    requires
                        rows@.len() == old_rows.len() + 1,
                        old_i == FOLDERS_PER_ROW as int * old_rows.len(),
                        old_i < n,
                        i == if n - old_i >= FOLDERS_PER_ROW { old_i + FOLDERS_PER_ROW as int } else { n as int },
                        i <= n,
                        n <= usize::MAX,
                        FOLDERS_PER_ROW == 5usize,
                ;
            }
        }
        rows
    }
}

/// The controller state after a whole sequence of messages, processed in
/// order.
pub open spec fn run_messages(s: FoldersView, messages: Seq<Message>) -> FoldersView
    decreases messages.len(),
{
    if messages.len() == 0 {
        s
    } else {
        run_messages(post_state(s, messages[0]), messages.drop_first())
    }
}

pub proof fn lemma_run_messages_push(s: FoldersView, messages: Seq<Message>, m: Message)
    ensures
        run_messages(s, messages.push(m)) == post_state(run_messages(s, messages), m),
    decreases messages.len(),
{
    let whole = messages.push(m);
    if messages.len() == 0 {
        assert(whole[0] == m);
        assert(whole.drop_first() =~= Seq::<Message>::empty());
        assert(run_messages(post_state(s, m), Seq::<Message>::empty()) == post_state(s, m));
    } else {
        assert(whole[0] == messages[0]);
        assert(whole.drop_first() =~= messages.drop_first().push(m));
        lemma_run_messages_push(post_state(s, messages[0]), messages.drop_first(), m);
    }
}

/// Law: a message history that ends with `Load(None)` always leaves no
/// study set selected, whatever states or folder lists the earlier
/// messages (loads, `SetFolders`, anything else) produced.
pub proof fn lemma_load_none_clears_study_set(s: FoldersView, prefix: Seq<Message>)
    ensures
        run_messages(s, prefix.push(Message::Load(None))).current_studyset_id is None,
{
    lemma_run_messages_push(s, prefix, Message::Load(None));
}

/// Law: `SetFolders(list)` replaces the folder sequence with exactly the
/// views of `list` — never merged with prior contents — leaves the rest of
/// the state untouched, and emits no command.
pub proof fn lemma_set_folders_exact(s: FoldersView, list: Vec<Folder>)
    ensures
        post_state(s, Message::SetFolders(list)).folders == folder_views(list@),
        post_state(s, Message::SetFolders(list)).current_studyset_id == s.current_studyset_id,
        post_state(s, Message::SetFolders(list)).new_folder_name == s.new_folder_name,
        commands_of(s, Message::SetFolders(list)) == Seq::<Command>::empty(),
{
}

/// Law: entering a draft name and then completing creation resets the
/// draft to empty and requests a reload of the folders of the study set
/// selected at that moment.
pub proof fn lemma_created_resets_draft(s: FoldersView, text: String, set_id: i32)
    requires
        s.current_studyset_id == Some(set_id),
    ensures
        ({
            let s1 = post_state(s, Message::NewFolderNameInput(text));
            &&& post_state(s1, Message::Created).new_folder_name == Seq::<char>::empty()
            &&& commands_of(s1, Message::Created) == seq![Command::LoadFolders(set_id)]
        }),
{
}

} // verus!
