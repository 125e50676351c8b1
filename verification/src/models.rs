//! Data model: folders and flashcards, as this core reads them.
//!
//! Both entities are owned by an external persistence layer; this crate only
//! holds transient snapshots of them.

use vstd::prelude::*;

verus! {

/// A named sub-grouping of flashcards within a study set.
///
/// `id` is `None` while the folder is being created and has not been
/// persisted yet.
#[derive(Debug)]
pub struct Folder {
    pub id: Option<i32>,
    pub name: String,
    pub studyset_id: i32,
}

/// Mathematical model of a [`Folder`].
#[verifier::ext_equal]
pub struct FolderView {
    pub id: Option<i32>,
    pub name: Seq<char>,
    pub studyset_id: i32,
}

impl View for Folder {
    type V = FolderView;

    open spec fn view(&self) -> FolderView {
        FolderView { id: self.id, name: self.name@, studyset_id: self.studyset_id }
    }
}

impl Clone for Folder {
    fn clone(&self) -> (r: Self)
        ensures
            r == *self,
    {
        Folder { id: self.id, name: self.name.clone(), studyset_id: self.studyset_id }
    }
}

/// A single study card: front and back text plus a review-status code.
///
/// `status` tracks self-assessed recall quality: 0 = new/unreviewed,
/// 1 = bad, 2 = ok, 3 = good. Other values are tolerated by this core.
/// `id` is `None` until the card is persisted.
#[derive(Debug)]
pub struct Flashcard {
    pub id: Option<i32>,
    pub front: String,
    pub back: String,
    pub status: i32,
}

/// Mathematical model of a [`Flashcard`].
#[verifier::ext_equal]
pub struct FlashcardView {
    pub id: Option<i32>,
    pub front: Seq<char>,
    pub back: Seq<char>,
    pub status: i32,
}

impl View for Flashcard {
    type V = FlashcardView;

    open spec fn view(&self) -> FlashcardView {
        FlashcardView { id: self.id, front: self.front@, back: self.back@, status: self.status }
    }
}

impl Clone for Flashcard {
    fn clone(&self) -> (r: Self)
        ensures
            r == *self,
    {
        Flashcard {
            id: self.id,
            front: self.front.clone(),
            back: self.back.clone(),
            status: self.status,
        }
    }
}

} // verus!
