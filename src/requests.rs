use vstd::prelude::*;

verus! {

/// Asks for an empty file at `path`.
pub struct CreateFileRequest {
    pub path: String,
}

/// Asks for a directory at `path`.
pub struct CreateFolderRequest {
    pub path: String,
}

/// Asks for the item at `old_path` to take the file name `new_name`.
pub struct RenameItemRequest {
    pub old_path: String,
    pub new_name: String,
}

/// Asks for the item at `path` to be removed, a directory with all it holds.
pub struct DeleteItemRequest {
    pub path: String,
}

/// Asks for `path` to become the working directory.
pub struct SetWorkingDirectoryRequest {
    pub path: String,
}

} // verus!
