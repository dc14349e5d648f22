//! The data model: workspaces, items ("files"), tags, the request shapes
//! for creating and updating them, and the search result row.
//!
//! Timestamps are carried as RFC 3339 text; their lexicographic order is
//! their chronological order, and the engine's contracts speak of it
//! through `text::lex_lt`.

use vstd::prelude::*;

verus! {

#[derive(Debug)]
pub struct Workspace {
    pub id: String,
    pub name: String,
    pub description: Option<String>,
    pub created_at: String,
    pub updated_at: String,
}

#[derive(Debug)]
pub struct CreateWorkspace {
    pub name: String,
    pub description: Option<String>,
}

#[derive(Debug)]
pub struct UpdateWorkspace {
    pub name: Option<String>,
    pub description: Option<String>,
}

/// An item of a workspace: a document, image, audio or video entry.
#[derive(Debug)]
pub struct File {
    pub id: String,
    pub workspace_id: String,
    pub file_type: String,
    pub title: String,
    pub content: Option<String>,
    pub file_path: Option<String>,
    pub file_size: Option<i64>,
    pub mime_type: Option<String>,
    pub created_at: String,
    pub updated_at: String,
}

#[derive(Debug)]
pub struct CreateFile {
    pub workspace_id: String,
    pub file_type: String,
    pub title: String,
    pub content: Option<String>,
    pub file_path: Option<String>,
    pub file_size: Option<i64>,
    pub mime_type: Option<String>,
}

#[derive(Debug)]
pub struct UpdateFile {
    pub title: Option<String>,
    pub content: Option<String>,
    pub file_path: Option<String>,
    pub file_size: Option<i64>,
    pub mime_type: Option<String>,
}

/// A tag: workspace-independent, with a unique name.
#[derive(Debug)]
pub struct Tag {
    pub id: String,
    pub name: String,
    pub color: Option<String>,
    pub created_at: String,
}

#[derive(Debug)]
pub struct CreateTag {
    pub name: String,
    pub color: Option<String>,
}

#[derive(Debug)]
pub struct FileWithTags {
    pub file: File,
    pub tags: Vec<Tag>,
}

/// A full-text search request: the raw query plus optional scope
/// filters and a row limit.
#[derive(Debug)]
pub struct SearchQuery {
    pub query: String,
    pub workspace_id: Option<String>,
    pub file_type: Option<String>,
    pub tags: Option<Vec<String>>,
    pub limit: Option<i64>,
}

/// The rank of a search result. Tag search carries no relevance, so its
/// rank is a constant; similarity search ranks by the shared-tag count.
/// The two scales are deliberately incomparable variants; full-text
/// relevance is produced and ordered by the backing index itself and
/// never materializes here.
#[derive(Clone, Copy, Debug, PartialEq, Eq, Structural)]
pub enum Rank {
    TagMatch,
    Overlap(u64),
}

/// A read-only projection of an item plus the rank the query path gave
/// it.
#[derive(Debug)]
pub struct SearchResult {
    pub id: String,
    pub workspace_id: String,
    pub file_type: String,
    pub title: String,
    pub content: Option<String>,
    pub file_path: Option<String>,
    pub created_at: String,
    pub updated_at: String,
    pub rank: Rank,
}

fn clone_opt_string(o: &Option<String>) -> (r: Option<String>)
    ensures
        r == *o,
{
    match o {
        Some(s) => Some(s.clone()),
        None => None,
    }
}

impl Clone for File {
    fn clone(&self) -> (r: Self)
        ensures
            r == *self,
    {
        File {
            id: self.id.clone(),
            workspace_id: self.workspace_id.clone(),
            file_type: self.file_type.clone(),
            title: self.title.clone(),
            content: clone_opt_string(&self.content),
            file_path: clone_opt_string(&self.file_path),
            file_size: self.file_size,
            mime_type: clone_opt_string(&self.mime_type),
            created_at: self.created_at.clone(),
            updated_at: self.updated_at.clone(),
        }
    }
}

impl Clone for Tag {
    fn clone(&self) -> (r: Self)
        ensures
            r == *self,
    {
        Tag {
            id: self.id.clone(),
            name: self.name.clone(),
            color: clone_opt_string(&self.color),
            created_at: self.created_at.clone(),
        }
    }
}

impl Clone for SearchResult {
    fn clone(&self) -> (r: Self)
        ensures
            r == *self,
    {
        SearchResult {
            id: self.id.clone(),
            workspace_id: self.workspace_id.clone(),
            file_type: self.file_type.clone(),
            title: self.title.clone(),
            content: clone_opt_string(&self.content),
            file_path: clone_opt_string(&self.file_path),
            created_at: self.created_at.clone(),
            updated_at: self.updated_at.clone(),
            rank: self.rank,
        }
    }
}

impl File {
    /// The search-result projection of this item, under the given rank.
    pub fn to_result(&self, rank: Rank) -> (r: SearchResult)
        ensures
            r.id == self.id,
            r.workspace_id == self.workspace_id,
            r.file_type == self.file_type,
            r.title == self.title,
            r.content == self.content,
            r.file_path == self.file_path,
            r.created_at == self.created_at,
            r.updated_at == self.updated_at,
            r.rank == rank,
    {
        SearchResult {
            id: self.id.clone(),
            workspace_id: self.workspace_id.clone(),
            file_type: self.file_type.clone(),
            title: self.title.clone(),
            content: clone_opt_string(&self.content),
            file_path: clone_opt_string(&self.file_path),
            created_at: self.created_at.clone(),
            updated_at: self.updated_at.clone(),
            rank,
        }
    }
}

} // verus!
