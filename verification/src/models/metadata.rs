use vstd::prelude::*;

verus! {

/// The mathematical value of a [`FileMetadata`]: text as sequences of
/// characters, everything else as it is stored.
pub struct FileRecord {
    pub path: Seq<char>,
    pub bytes: u64,
    pub modified_at: Option<i64>,
    pub created_at: Option<i64>,
    pub accessed_at: Option<i64>,
    pub content_hash: Option<Seq<char>>,
}

/// One file of a snapshot: its path relative to the snapshot's root, its
/// length, the timestamps the platform exposed (seconds relative to the Unix
/// epoch) and the fingerprint of its content.
///
/// An absent `content_hash` means that the content could not be hashed; it is
/// a value of its own and equal to no hash.
#[derive(Debug)]
pub struct FileMetadata {
    /// The path to the file, relative to the root of its snapshot
    pub path: String,
    /// The size of the file in bytes
    pub bytes: u64,
    /// The modification time of the file
    pub modified_at: Option<i64>,
    /// The creation time of the file
    pub created_at: Option<i64>,
    /// The last access time of the file
    pub accessed_at: Option<i64>,
    /// The hash of the file content
    pub content_hash: Option<String>,
}

impl View for FileMetadata {
    type V = FileRecord;

    open spec fn view(&self) -> FileRecord {
        FileRecord {
            path: self.path@,
            bytes: self.bytes,
            modified_at: self.modified_at,
            created_at: self.created_at,
            accessed_at: self.accessed_at,
            content_hash: match self.content_hash {
                Some(h) => Some(h@),
                None => None,
            },
        }
    }
}

impl DeepView for FileMetadata {
    type V = FileRecord;

    open spec fn deep_view(&self) -> FileRecord {
        self@
    }
}

impl Clone for FileMetadata {
    fn clone(&self) -> (copy: Self)
        ensures
            copy@ == self@,
    {
        FileMetadata {
            path: self.path.clone(),
            bytes: self.bytes,
            modified_at: self.modified_at,
            created_at: self.created_at,
            accessed_at: self.accessed_at,
            content_hash: match &self.content_hash {
                Some(h) => Some(h.clone()),
                None => None,
            },
        }
    }
}

} // verus!
