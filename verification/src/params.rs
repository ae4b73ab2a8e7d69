use vstd::prelude::*;

verus! {

/// Query parameters selecting a sidebar page; `None` means the caller did
/// not ask for a particular page and the page of the current note is used.
pub struct PaginationParams {
    pub page: Option<i32>,
}

/// Query parameters of a search request.
pub struct SearchParams {
    pub pagination: PaginationParams,
    pub q: Option<String>,
}

/// Form parameters of a note-creation request.
pub struct CreateNoteParams {
    pub as_sibling: bool,
}

/// Form parameters of a note-move request.
pub struct MoveNoteForm {
    pub new_parent_id: i32,
}

/// Form parameters of a tag attach/detach request; `action` is "attach" or
/// "detach".
pub struct TagActionForm {
    pub tag_id: i32,
    pub action: String,
}

/// Form parameters of a tag re-parenting request; an empty or missing
/// value clears the parent.
pub struct SetParentRequest {
    pub parent_id: Option<String>,
}

} // verus!
