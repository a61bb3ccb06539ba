//! Data model of the note store: notes, tags, the frontmatter metadata
//! block, request/response shapes and the error type.

use vstd::prelude::*;

verus! {

/// A named label attachable to notes.  `id` is a process-local surrogate,
/// assigned monotonically from 1 by the tag registry; two tags with the same
/// name always carry the same id within one manager lifetime.
#[derive(Debug, Clone)]
pub struct Tag {
    pub id: u32,
    pub name: String,
    pub created_at: String,
}

/// Mathematical value of a [`Tag`].
#[verifier::ext_equal]
pub struct TagView {
    pub id: u32,
    pub name: Seq<char>,
    pub created_at: Seq<char>,
}

impl View for Tag {
    type V = TagView;

    open spec fn view(&self) -> TagView {
        TagView { id: self.id, name: self.name@, created_at: self.created_at@ }
    }
}

/// The primary persisted entity: a titled, tagged piece of text content with
/// an id and RFC 3339 timestamps.
#[derive(Debug, Clone)]
pub struct Note {
    pub id: u32,
    pub title: String,
    pub content: String,
    pub tags: Vec<Tag>,
    pub created_at: String,
    pub updated_at: String,
}

/// Mathematical value of a [`Note`].
#[verifier::ext_equal]
pub struct NoteView {
    pub id: u32,
    pub title: Seq<char>,
    pub content: Seq<char>,
    pub tags: Seq<TagView>,
    pub created_at: Seq<char>,
    pub updated_at: Seq<char>,
}

impl View for Note {
    type V = NoteView;

    open spec fn view(&self) -> NoteView {
        NoteView {
            id: self.id,
            title: self.title@,
            content: self.content@,
            tags: self.tags@.map_values(|t: Tag| t@),
            created_at: self.created_at@,
            updated_at: self.updated_at@,
        }
    }
}

/// The metadata block stored at the head of each note file: everything of a
/// note except its body, with tags kept as bare names.
#[derive(Debug, Clone)]
pub struct Frontmatter {
    pub id: u32,
    pub title: String,
    pub tags: Vec<String>,
    pub created_at: String,
    pub updated_at: String,
}

/// Mathematical value of a [`Frontmatter`].
#[verifier::ext_equal]
pub struct FrontmatterView {
    pub id: u32,
    pub title: Seq<char>,
    pub tags: Seq<Seq<char>>,
    pub created_at: Seq<char>,
    pub updated_at: Seq<char>,
}

impl View for Frontmatter {
    type V = FrontmatterView;

    open spec fn view(&self) -> FrontmatterView {
        FrontmatterView {
            id: self.id,
            title: self.title@,
            tags: self.tags.deep_view(),
            created_at: self.created_at@,
            updated_at: self.updated_at@,
        }
    }
}

/// One entry of the notes directory, as the surrounding process hands it in:
/// the bare file name (no directory part) and the file's text.  For entries
/// that are not note files the text may be empty; only the name is consulted.
#[derive(Debug, Clone)]
pub struct NoteFile {
    pub name: String,
    pub text: String,
}

/// Mathematical value of a [`NoteFile`].
#[verifier::ext_equal]
pub struct NoteFileView {
    pub name: Seq<char>,
    pub text: Seq<char>,
}

impl View for NoteFile {
    type V = NoteFileView;

    open spec fn view(&self) -> NoteFileView {
        NoteFileView { name: self.name@, text: self.text@ }
    }
}

/// Typed failure of a store operation.
#[derive(Debug)]
pub enum NoteError {
    /// An underlying filesystem read/write/remove failed; carries the
    /// rendered message.  Only the surrounding process constructs this.
    Io(String),
    /// The metadata block between the delimiters failed to parse.
    Metadata,
    /// The requested note id has no corresponding file.
    NotFound(u32),
    /// The text does not begin with `---`, or no closing delimiter follows.
    InvalidFrontmatter,
}

/// Query parameters of [`crate::manager::NoteManager::list_notes`].
#[derive(Debug, Clone, Default)]
pub struct ListNotesParams {
    pub search: Option<String>,
    pub tag_ids: Option<Vec<u32>>,
    pub limit: Option<usize>,
    pub offset: Option<usize>,
}

/// One page of notes plus the total count after filtering.
#[derive(Debug)]
pub struct ListNotesResponse {
    pub notes: Vec<Note>,
    pub total: usize,
}

/// Successful single-note retrieval.
#[derive(Debug)]
pub struct GetNoteResponse {
    pub note: Note,
}

/// Inputs of a create operation.
#[derive(Debug, Clone)]
pub struct CreateNoteRequest {
    pub title: String,
    pub content: String,
    pub tag_names: Option<Vec<String>>,
}

/// The note a create operation persisted.
#[derive(Debug)]
pub struct CreateNoteResponse {
    pub note: Note,
}

/// Inputs of an update operation; absent fields keep their prior values.
#[derive(Debug, Clone, Default)]
pub struct UpdateNoteRequest {
    pub title: Option<String>,
    pub content: Option<String>,
    pub tag_names: Option<Vec<String>>,
}

/// The note as persisted after an update.
#[derive(Debug)]
pub struct UpdateNoteResponse {
    pub note: Note,
}

/// Acknowledgement of a successful delete.
#[derive(Debug)]
pub struct DeleteNoteResponse {
    pub success: bool,
}

/// Every tag currently known to the registry.
#[derive(Debug)]
pub struct ListTagsResponse {
    pub tags: Vec<Tag>,
}

} // verus!
