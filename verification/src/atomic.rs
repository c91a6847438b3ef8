//! The atomic-commit store for a plaintext aggregate.
//!
//! The store owns the in-memory aggregate and knows the target path and its
//! derived staging path. Every durable commit is a whole-snapshot write: the
//! serialized aggregate goes to the staging path, is synced, and is then
//! renamed onto the target. This module decides everything about that
//! protocol — what the staging path is, when a leftover staging file must
//! abort an open, and what bytes a commit writes; the embedding application
//! only executes the returned [`PendingWrite`] with its file system.
use vstd::prelude::*;

use crate::doc::Doc;
use crate::json::{json_of, json_parse, parse_json, print_json};
use crate::text::{chars_vec, string_from_chars, string_from_utf8};
use crate::DbError;

verus! {

/// An aggregate that a store can persist.
///
/// The aggregate describes itself as a document and rebuilds itself from
/// one; `human` picks between the self-describing representation and the
/// compact one (see [`crate::table::Table::serialize`]). A fresh aggregate
/// stands in when no file exists yet.
pub trait DataStore: Sized {
    /// The default aggregate of a newly created store.
    fn fresh() -> Self;

    /// Render the aggregate as a document.
    fn to_doc(&self, human: bool) -> Doc;

    /// Rebuild the aggregate from a document.
    fn from_doc(d: &Doc, human: bool) -> Option<Self>;
}

/// A durable write for the embedding application to perform: write `bytes`
/// to `staging_path`, sync them to stable storage, then atomically rename
/// `staging_path` onto `target_path`. The two paths always differ, so the
/// target file is never written directly — only replaced by the rename.
pub struct PendingWrite {
    /// The staging file to create and fill.
    pub staging_path: String,
    /// The file the staging file replaces once synced.
    pub target_path: String,
    /// The complete serialized snapshot.
    pub bytes: Vec<u8>,
}

/// The position right after the last `/` of a path: where its file name
/// starts.
pub open spec fn name_start(path: Seq<char>) -> int
    decreases path.len(),
{
    if path.len() == 0 {
        0
    } else if path.last() == '/' {
        path.len() as int
    } else {
        name_start(path.drop_last())
    }
}

/// The staging path of a target path: a dot before the file name, a tilde
/// after it, in the same directory. A path without a file name gets the
/// placeholder name `db`.
pub open spec fn staging_of(path: Seq<char>) -> Seq<char> {
    let i = name_start(path);
    let name = if i == path.len() {
        seq!['d', 'b']
    } else {
        path.skip(i)
    };
    path.take(i) + seq!['.'] + name + seq!['~']
}

/// The staging path is never the target path itself.
pub proof fn lemma_staging_distinct(path: Seq<char>)
    ensures
        staging_of(path) != path,
{
    let i = name_start(path);
    lemma_name_start_range(path);
    if i == path.len() {
        assert(staging_of(path).len() == path.len() + 4);
    } else {
        assert(staging_of(path).len() == path.len() + 2);
    }
}

/// The file name starts inside the path.
pub proof fn lemma_name_start_range(path: Seq<char>)
    ensures
        0 <= name_start(path) <= path.len(),
    decreases path.len(),
{
    if path.len() > 0 && path.last() != '/' {
        lemma_name_start_range(path.drop_last());
    }
}

/// Derive the staging path of a target path.
pub fn staging_path(path: &str) -> (r: String)
    ensures
        r@ == staging_of(path@),
{
    let cs = chars_vec(path);
    let n = cs.len();
    let mut i: usize = n;
    loop
        invariant
            0 <= i <= n,
            n == cs@.len(),
            forall|j: int| i <= j < n ==> cs@[j] != '/',
        ensures
            0 <= i <= n,
            forall|j: int| i <= j < n ==> cs@[j] != '/',
            i > 0 ==> cs@[i - 1] == '/',
        decreases i,
    {
        if i == 0 {
            break ;
        }
        if cs[i - 1] == '/' {
            break ;
        }
        i = i - 1;
    }
    proof {
        lemma_name_start_at(cs@, i as int);
    }
    let mut out: Vec<char> = Vec::new();
    let mut j: usize = 0;
    while j < i
        invariant
            0 <= j <= i <= n,
            n == cs@.len(),
            out@ == cs@.take(j as int),
        decreases i - j,
    {
        out.push(cs[j]);
        proof {
            assert(out@ =~= cs@.take(j + 1));
        }
        j = j + 1;
    }
    out.push('.');
    if i == n {
        out.push('d');
        out.push('b');
    } else {
        let mut j2: usize = i;
        while j2 < n
            invariant
                i <= j2 <= n,
                n == cs@.len(),
                out@ == cs@.take(i as int) + seq!['.'] + cs@.subrange(i as int, j2 as int),
            decreases n - j2,
        {
            out.push(cs[j2]);
            proof {
                assert(out@ =~= cs@.take(i as int) + seq!['.'] + cs@.subrange(
                    i as int,
                    j2 + 1,
                ));
            }
            j2 = j2 + 1;
        }
    }
    out.push('~');
    proof {
        if i == n {
            assert(out@ =~= staging_of(path@));
        } else {
            assert(cs@.subrange(i as int, n as int) =~= cs@.skip(i as int));
            assert(out@ =~= staging_of(path@));
        }
    }
    string_from_chars(&out)
}

/// `name_start` is the position after the last slash.
proof fn lemma_name_start_at(path: Seq<char>, i: int)
    requires
        0 <= i <= path.len(),
        forall|j: int| i <= j < path.len() ==> path[j] != '/',
        i > 0 ==> path[i - 1] == '/',
    ensures
        name_start(path) == i,
    decreases path.len(),
{
    if path.len() == 0 {
    } else if path.last() == '/' {
        assert(i == path.len());
    } else {
        assert(forall|j: int| i <= j < path.drop_last().len() ==> path.drop_last()[j] != '/');
        if i > 0 {
            assert(path.drop_last()[i - 1] == path[i - 1]);
        }
        lemma_name_start_at(path.drop_last(), i);
    }
}

/// The store: the aggregate, guarded by the owning handle, and the paths of
/// its on-disk snapshot. An in-memory store has no paths and never
/// persists.
pub struct AtomicDatabase<T: DataStore> {
    path: Option<String>,
    tmp: Option<String>,
    data: T,
}

impl<T: DataStore> AtomicDatabase<T> {
    /// The target path of the snapshot, absent for an in-memory store.
    pub closed spec fn target(&self) -> Option<Seq<char>> {
        match self.path {
            Some(p) => Some(p@),
            None => None,
        }
    }

    /// The staging path is derived from the target.
    pub closed spec fn paths_wf(&self) -> bool {
        match (self.path, self.tmp) {
            (Some(p), Some(t)) => t@ == staging_of(p@),
            (None, None) => true,
            _ => false,
        }
    }

    /// The aggregate the store holds.
    pub closed spec fn aggregate(&self) -> T {
        self.data
    }

    /// A store with no backing file: reads and writes never touch disk.
    pub fn load_in_memory() -> (r: Self)
        ensures
            r.target() is None,
            r.paths_wf(),
    {
        AtomicDatabase { path: None, tmp: None, data: T::fresh() }
    }

    /// Open an existing snapshot.
    ///
    /// `file_bytes` is the current content of `path`; `staging_exists` says
    /// whether the derived staging path is occupied. A leftover staging
    /// file aborts the open: it means a crash between staging and rename,
    /// or a second live instance, and the store never deletes it by itself.
    /// On success the snapshot is re-serialized at once: the returned
    /// [`PendingWrite`] normalizes the on-disk form and proves the path
    /// writable before the store is used.
    pub fn load(path: &str, file_bytes: &[u8], staging_exists: bool) -> (r: Result<
        (Self, PendingWrite),
        DbError,
    >)
        ensures
            staging_exists ==> r == Err::<(Self, PendingWrite), DbError>(DbError::AlreadyExists),
            !staging_exists && !vstd::utf8::valid_utf8(file_bytes@) ==> r == Err::<(
                Self,
                PendingWrite,
            ), DbError>(DbError::CorruptData),
            !staging_exists && vstd::utf8::valid_utf8(file_bytes@) && json_parse(
                vstd::utf8::decode_utf8(file_bytes@),
            ) is None ==> r == Err::<(Self, PendingWrite), DbError>(DbError::CorruptData),
            !staging_exists ==> match r {
                Ok((db, plan)) => {
                    &&& db.target() == Some(path@)
                    &&& db.paths_wf()
                    &&& vstd::utf8::valid_utf8(file_bytes@)
                    &&& json_parse(vstd::utf8::decode_utf8(file_bytes@)) is Some
                    &&& plan.target_path@ == path@
                    &&& plan.staging_path@ == staging_of(path@)
                    &&& plan.staging_path@ != plan.target_path@
                    &&& exists|dd: crate::doc::DocModel|
                        plan.bytes@ == vstd::utf8::encode_utf8(#[trigger] json_of(dd))
                },
                Err(e) => e == DbError::CorruptData,
            },
    {
        if staging_exists {
            return Err(DbError::AlreadyExists);
        }
        let bytes = vstd::slice::slice_to_vec(file_bytes);
        let text = match string_from_utf8(bytes) {
            Some(t) => t,
            None => {
                return Err(DbError::CorruptData);
            },
        };
        let cs = chars_vec(text.as_str());
        let d = match parse_json(&cs) {
            Some(d) => d,
            None => {
                return Err(DbError::CorruptData);
            },
        };
        let data = match T::from_doc(&d, true) {
            Some(x) => x,
            None => {
                return Err(DbError::CorruptData);
            },
        };
        let tmp = staging_path(path);
        let db = AtomicDatabase {
            path: Some(path_to_string(path)),
            tmp: Some(tmp),
            data,
        };
        proof {
            lemma_staging_distinct(path@);
        }
        let plan = db.snapshot_plan();
        Ok((db, plan.unwrap()))
    }

    /// Create a fresh snapshot at a path.
    ///
    /// The aggregate starts as the default; the returned [`PendingWrite`]
    /// materializes it. A leftover staging file aborts the create, exactly
    /// as it aborts a load, and so does an occupied target path: a create
    /// never overwrites an existing snapshot — opening one is a load.
    pub fn create(path: &str, staging_exists: bool, target_exists: bool) -> (r: Result<
        (Self, PendingWrite),
        DbError,
    >)
        ensures
            staging_exists || target_exists ==> r == Err::<(Self, PendingWrite), DbError>(
                DbError::AlreadyExists,
            ),
            !staging_exists && !target_exists ==> match r {
                Ok((db, plan)) => {
                    &&& db.target() == Some(path@)
                    &&& db.paths_wf()
                    &&& plan.target_path@ == path@
                    &&& plan.staging_path@ == staging_of(path@)
                    &&& plan.staging_path@ != plan.target_path@
                    &&& exists|dd: crate::doc::DocModel|
                        plan.bytes@ == vstd::utf8::encode_utf8(#[trigger] json_of(dd))
                },
                Err(_) => false,
            },
    {
        if staging_exists || target_exists {
            return Err(DbError::AlreadyExists);
        }
        let tmp = staging_path(path);
        let db = AtomicDatabase {
            path: Some(path_to_string(path)),
            tmp: Some(tmp),
            data: T::fresh(),
        };
        proof {
            lemma_staging_distinct(path@);
        }
        let plan = db.snapshot_plan();
        Ok((db, plan.unwrap()))
    }

    /// Borrow the aggregate for reading.
    pub fn read(&self) -> (r: &T)
        ensures
            *r == self.aggregate(),
    {
        &self.data
    }

    /// Borrow the aggregate for writing.
    ///
    /// The caller that releases its write access must perform the
    /// [`PendingWrite`] of a following [`Self::commit`]: the write guard's
    /// release is the transaction boundary.
    pub fn write(&mut self) -> (r: &mut T) {
        &mut self.data
    }

    /// The durable write that persists the current aggregate, or `None`
    /// for an in-memory store.
    pub fn commit(&self) -> (r: Option<PendingWrite>)
        requires
            self.paths_wf(),
        ensures
            match r {
                Some(plan) => {
                    &&& self.target() == Some(plan.target_path@)
                    &&& plan.staging_path@ == staging_of(plan.target_path@)
                    &&& plan.staging_path@ != plan.target_path@
                    &&& exists|dd: crate::doc::DocModel|
                        plan.bytes@ == vstd::utf8::encode_utf8(#[trigger] json_of(dd))
                },
                None => self.target() is None,
            },
    {
        proof {
            match &self.path {
                Some(p) => lemma_staging_distinct(p@),
                None => {},
            }
        }
        self.snapshot_plan()
    }

    /// Serialize the aggregate and address the write at the store's paths.
    fn snapshot_plan(&self) -> (r: Option<PendingWrite>)
        requires
            self.paths_wf(),
        ensures
            match r {
                Some(plan) => {
                    &&& self.target() == Some(plan.target_path@)
                    &&& plan.staging_path@ == staging_of(plan.target_path@)
                    &&& exists|dd: crate::doc::DocModel|
                        plan.bytes@ == vstd::utf8::encode_utf8(#[trigger] json_of(dd))
                },
                None => self.target() is None,
            },
    {
        match (&self.path, &self.tmp) {
            (Some(p), Some(t)) => {
                let d = self.data.to_doc(true);
                let cs = print_json(&d);
                let s = string_from_chars(&cs);
                let bytes = vstd::slice::slice_to_vec(s.as_str().as_bytes());
                proof {
                    assert(bytes@ == vstd::utf8::encode_utf8(json_of(d@)));
                }
                Some(
                    PendingWrite {
                        staging_path: t.clone(),
                        target_path: p.clone(),
                        bytes,
                    },
                )
            },
            _ => None,
        }
    }
}

/// An owned copy of a path.
fn path_to_string(path: &str) -> (r: String)
    ensures
        r@ == path@,
{
    let cs = chars_vec(path);
    string_from_chars(&cs)
}

} // verus!
