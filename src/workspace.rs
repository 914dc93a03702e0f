//! The workspace: its root, its mapping table, and the decisions of the
//! link and unlink operations. The file system steps between those
//! decisions are made by the caller.
use vstd::prelude::*;
use crate::error::DotError;
use crate::key::PathContext;
use crate::store::{entry_views, join_path, join_path_exec, json_string_object, pairs_map, EntryView, FileMappings};

verus! {

/// The workspace directory, under the home directory.
pub const WORKSPACE_DIR: &'static str = ".dotfiles";

/// The persisted table, inside the workspace.
pub const MAPPINGS_FILE: &'static str = ".file_mappings.json";

/// What is found at a source path, without following a final link.
#[derive(Debug, Clone, Copy, PartialEq, Eq, Structural)]
pub enum SourceKind {
    Missing,
    RegularFile,
    Directory,
    Symlink,
    Other,
}

/// One workspace session: the root, where its table is persisted, and the
/// table.
pub struct App {
    workspace: String,
    file_mappings_path: String,
    file_mappings: FileMappings,
}

impl App {
    pub closed spec fn workspace_spec(&self) -> Seq<char> {
        self.workspace@
    }

    pub closed spec fn mappings_path_spec(&self) -> Seq<char> {
        self.file_mappings_path@
    }

    pub closed spec fn mappings(&self) -> FileMappings {
        self.file_mappings
    }

    pub open spec fn wf(&self) -> bool {
        self.mappings().wf() && self.mappings().workspace_spec() == self.workspace_spec()
    }

    /// The workspace root for a home directory.
    pub fn workspace_for(ctx: &PathContext) -> (r: String)
        ensures
            r@ == join_path(ctx.home_spec(), WORKSPACE_DIR@),
    {
        join_path_exec(ctx.home(), WORKSPACE_DIR)
    }

    /// Where the table of a workspace is persisted.
    pub fn mappings_path_for(workspace: &str) -> (r: String)
        ensures
            r@ == join_path(workspace@, MAPPINGS_FILE@),
    {
        join_path_exec(workspace, MAPPINGS_FILE)
    }

    /// Opens the session: an empty table when nothing was persisted, else
    /// the table read from the persisted text (`Parse` when it is malformed).
    pub fn new(ctx: PathContext, persisted: Option<&str>) -> (r: Result<App, DotError>)
        requires
            ctx.wf(),
        ensures
            r is Ok <==> (persisted is None || json_string_object(persisted->Some_0@) is Some),
            r is Err ==> r->Err_0 == DotError::Parse,
            r is Ok ==> {
                &&& r->Ok_0.wf()
                &&& r->Ok_0.workspace_spec() == join_path(ctx.home_spec(), WORKSPACE_DIR@)
                &&& r->Ok_0.mappings_path_spec() == join_path(r->Ok_0.workspace_spec(), MAPPINGS_FILE@)
                &&& r->Ok_0.mappings().ctx_spec() == ctx
                &&& r->Ok_0.mappings().view_map() == match persisted {
                    None => Map::<Seq<char>, Seq<char>>::empty(),
                    Some(t) => pairs_map(json_string_object(t@)->Some_0),
                }
            },
    {
        let workspace = App::workspace_for(&ctx);
        let file_mappings_path = App::mappings_path_for(workspace.as_str());
        let file_mappings = match persisted {
            None => FileMappings::new(workspace.clone(), ctx),
            Some(text) => match FileMappings::load_entries(workspace.clone(), text, ctx) {
                Ok(fm) => fm,
                Err(e) => {
                    return Err(e);
                },
            },
        };
        Ok(App { workspace, file_mappings_path, file_mappings })
    }

    pub fn workspace(&self) -> (r: &str)
        ensures
            r@ == self.workspace_spec(),
    {
        self.workspace.as_str()
    }

    pub fn file_mappings_path(&self) -> (r: &str)
        ensures
            r@ == self.mappings_path_spec(),
    {
        self.file_mappings_path.as_str()
    }

    pub fn file_mappings(&self) -> (r: &FileMappings)
        ensures
            *r == self.mappings(),
    {
        &self.file_mappings
    }

    /// The mapped files, in key order.
    pub fn entries(&self) -> (r: &Vec<(String, String)>)
        ensures
            entry_views(r@) == self.mappings().entries_spec(),
    {
        self.file_mappings.as_map()
    }

    /// The first step of linking: the source must be a regular file. Gives
    /// the absolute destination inside the workspace; nothing is changed.
    pub fn prepare_link(&self, source: SourceKind, dest: &str) -> (r: Result<String, DotError>)
        ensures
            r is Ok <==> source == SourceKind::RegularFile,
            r is Err ==> r->Err_0 == DotError::InvalidSource,
            r is Ok ==> r->Ok_0@ == join_path(self.workspace_spec(), dest@),
    {
        match source {
            SourceKind::RegularFile => Ok(join_path_exec(self.workspace.as_str(), dest)),
            _ => Err(DotError::InvalidSource),
        }
    }

    /// Registers a link from `source` to `dest` (relative to the workspace)
    /// before anything on disk moves; a source that is already managed is
    /// refused and the table stays as it was.
    pub fn register_link(&mut self, source: &str, dest: &str) -> (r: Result<(), DotError>)
        requires
            old(self).wf(),
        ensures
            final(self).wf(),
            final(self).workspace_spec() == old(self).workspace_spec(),
            final(self).mappings_path_spec() == old(self).mappings_path_spec(),
            final(self).mappings().ctx_spec() == old(self).mappings().ctx_spec(),
            old(self).mappings().view_map().contains_key(old(self).mappings().key_of(source@)) ==> r
                == Err::<(), DotError>(DotError::DuplicateKey) && final(self).mappings().view_map()
                == old(self).mappings().view_map(),
            !old(self).mappings().view_map().contains_key(old(self).mappings().key_of(source@)) ==> r
                is Ok && final(self).mappings().view_map() == old(self).mappings().view_map().insert(
                old(self).mappings().key_of(source@),
                dest@,
            ),
    {
        self.file_mappings.add(source, dest)
    }

    /// The first step of unlinking: the source must exist and be managed.
    pub fn prepare_unlink(&self, source: &str, source_exists: bool) -> (r: Result<(), DotError>)
        requires
            self.wf(),
        ensures
            !source_exists ==> r == Err::<(), DotError>(DotError::InvalidSource),
            source_exists && !self.mappings().view_map().contains_key(self.mappings().key_of(source@))
                ==> r == Err::<(), DotError>(DotError::NotManaged),
            source_exists && self.mappings().view_map().contains_key(self.mappings().key_of(source@))
                ==> r is Ok,
    {
        if !source_exists {
            return Err(DotError::InvalidSource);
        }
        if !self.file_mappings.contains(source) {
            return Err(DotError::NotManaged);
        }
        Ok(())
    }

    /// The last step of unlinking, once the file is back in place: the
    /// entry of `source` is removed.
    pub fn finish_unlink(&mut self, source: &str) -> (r: Result<(), DotError>)
        requires
            old(self).wf(),
        ensures
            final(self).wf(),
            final(self).workspace_spec() == old(self).workspace_spec(),
            final(self).mappings_path_spec() == old(self).mappings_path_spec(),
            final(self).mappings().ctx_spec() == old(self).mappings().ctx_spec(),
            old(self).mappings().view_map().contains_key(old(self).mappings().key_of(source@)) ==> r
                is Ok && final(self).mappings().view_map() == old(self).mappings().view_map().remove(
                old(self).mappings().key_of(source@),
            ),
            !old(self).mappings().view_map().contains_key(old(self).mappings().key_of(source@)) ==> r
                == Err::<(), DotError>(DotError::NotFound) && final(self).mappings().view_map()
                == old(self).mappings().view_map(),
    {
        self.file_mappings.remove(source)
    }

    /// Restoring every managed file is not implemented; it always fails.
    pub fn restore(&self) -> (r: Result<(), DotError>)
        ensures
            r == Err::<(), DotError>(DotError::Unimplemented),
    {
        Err(DotError::Unimplemented)
    }

    /// The text to persist at the end of the session; it always succeeds.
    pub fn save(&self) -> (r: Result<String, DotError>)
        ensures
            r is Ok,
            r is Ok ==> r->Ok_0@ == crate::store::pretty_json_object(self.mappings().entries_spec()),
            r is Err ==> r->Err_0 == DotError::Io,
    {
        self.file_mappings.save_entries()
    }
}

} // verus!
