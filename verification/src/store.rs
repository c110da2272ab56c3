//! The metadata catalog, the blob store, the ingestion pipeline and the
//! search engine.
//!
//! [`ContextDB`] holds the catalog (projects, file records, line-index
//! entries) and the content-addressed blobs in memory. Every operation is
//! specified against [`DbModel`], the mathematical view of the store; a host
//! program persists the state at its own edges.
//!
//! Catalog rows are never deleted, so a row's identifier is its position in
//! its table: `projects[i].id == i` and `files[i].id == i` are part of the
//! store's invariant.
//!
//! Every mutating operation takes the store by exclusive borrow and completes
//! before it returns, so the delete-then-insert that re-indexes a file is
//! atomic with respect to every search: no caller can observe a file with a
//! partially replaced index.

use vstd::prelude::*;
use vstd::seq_lib::*;

use crate::codec;
use crate::hashing;
use crate::text;

verus! {

/// A registered project.
pub struct Project {
    pub id: u64,
    pub name: String,
    pub source_root: String,
    pub created_at: u64,
    pub updated_at: u64,
}

/// One ingested file of a project. At most one record exists per
/// `(project_id, relative_path)` pair.
pub struct FileRecord {
    pub id: u64,
    pub project_id: u64,
    pub relative_path: String,
    pub content_hash: u64,
    pub compressed_size: usize,
    pub created_at: u64,
}

/// One indexed line of a file, 1-based, reflecting the file's most recent
/// ingestion.
pub struct IndexEntry {
    pub file_id: u64,
    pub line_number: usize,
    pub line_content: String,
}

/// A compressed archival copy of one file's content, keyed by project and
/// content hash.
pub struct Blob {
    pub project_id: u64,
    pub content_hash: u64,
    pub bytes: Vec<u8>,
}

/// A file handed to ingestion: the path it was read from, and its content,
/// or `None` when the file was unreadable and is to be skipped.
pub struct FileInput {
    pub path: String,
    pub content: Option<String>,
}

/// One search match: the owning file's path, the 1-based line number, the
/// matching line, and optionally the whole decompressed file.
#[derive(Debug, Clone)]
pub struct SearchResult {
    pub file_path: String,
    pub line_number: usize,
    pub line_content: String,
    pub full_context: Option<String>,
}

/// An error of the store.
#[derive(Clone, Copy, Debug, PartialEq, Eq, Structural)]
pub enum StoreError {
    /// The referenced project is not registered.
    NotFound,
    /// The compression backend failed; the operation was aborted.
    IoFailure,
}

impl StoreError {
    /// A short description of the error, for a host program to print.
    pub fn describe(&self) -> (r: &'static str)
        ensures
            *self == StoreError::NotFound ==> r@ == "project not found"@,
            *self == StoreError::IoFailure ==> r@ == "storage backend failure"@,
    {
        match self {
            StoreError::NotFound => "project not found",
            StoreError::IoFailure => "storage backend failure",
        }
    }
}

/// The mathematical view of a [`Project`].
pub struct ProjectModel {
    pub id: u64,
    pub name: Seq<char>,
    pub source_root: Seq<char>,
    pub created_at: u64,
    pub updated_at: u64,
}

/// The mathematical view of a [`FileRecord`].
pub struct FileModel {
    pub id: u64,
    pub project_id: u64,
    pub relative_path: Seq<char>,
    pub content_hash: u64,
    pub compressed_size: nat,
    pub created_at: u64,
}

/// The mathematical view of an [`IndexEntry`].
pub struct EntryModel {
    pub file_id: u64,
    pub line_number: usize,
    pub line_content: Seq<char>,
}

/// The mathematical view of a [`Blob`].
pub struct BlobModel {
    pub project_id: u64,
    pub content_hash: u64,
    pub bytes: Seq<u8>,
}

/// The mathematical view of a [`FileInput`].
pub struct InputModel {
    pub path: Seq<char>,
    pub content: Option<Seq<char>>,
}

/// The mathematical view of a [`SearchResult`].
pub struct ResultModel {
    pub file_path: Seq<char>,
    pub line_number: usize,
    pub line_content: Seq<char>,
    pub full_context: Option<Seq<char>>,
}

/// The mathematical view of the whole store.
pub struct DbModel {
    pub projects: Seq<ProjectModel>,
    pub files: Seq<FileModel>,
    pub entries: Seq<EntryModel>,
    pub blobs: Seq<BlobModel>,
}

impl View for Project {
    type V = ProjectModel;

    open spec fn view(&self) -> ProjectModel {
        ProjectModel {
            id: self.id,
            name: self.name@,
            source_root: self.source_root@,
            created_at: self.created_at,
            updated_at: self.updated_at,
        }
    }
}

impl View for FileRecord {
    type V = FileModel;

    open spec fn view(&self) -> FileModel {
        FileModel {
            id: self.id,
            project_id: self.project_id,
            relative_path: self.relative_path@,
            content_hash: self.content_hash,
            compressed_size: self.compressed_size as nat,
            created_at: self.created_at,
        }
    }
}

impl View for IndexEntry {
    type V = EntryModel;

    open spec fn view(&self) -> EntryModel {
        EntryModel {
            file_id: self.file_id,
            line_number: self.line_number,
            line_content: self.line_content@,
        }
    }
}

impl View for Blob {
    type V = BlobModel;

    open spec fn view(&self) -> BlobModel {
        BlobModel {
            project_id: self.project_id,
            content_hash: self.content_hash,
            bytes: self.bytes@,
        }
    }
}

impl View for FileInput {
    type V = InputModel;

    open spec fn view(&self) -> InputModel {
        InputModel {
            path: self.path@,
            content: match self.content {
                Some(ref c) => Some(c@),
                None => None,
            },
        }
    }
}

impl View for SearchResult {
    type V = ResultModel;

    open spec fn view(&self) -> ResultModel {
        ResultModel {
            file_path: self.file_path@,
            line_number: self.line_number,
            line_content: self.line_content@,
            full_context: match self.full_context {
                Some(ref c) => Some(c@),
                None => None,
            },
        }
    }
}

/// The index of the first project named `name`, or `-1` if none is.
pub open spec fn find_project(projects: Seq<ProjectModel>, name: Seq<char>) -> int
    decreases projects.len(),
{
    if projects.len() == 0 {
        -1
    } else if projects[0].name == name {
        0
    } else if find_project(projects.drop_first(), name) < 0 {
        -1
    } else {
        find_project(projects.drop_first(), name) + 1
    }
}

/// `find_project` points at the first project with the given name, and is
/// `-1` exactly when no project bears it.
pub proof fn lemma_find_project(projects: Seq<ProjectModel>, name: Seq<char>)
    ensures
        find_project(projects, name) >= 0 || find_project(projects, name) == -1,
        find_project(projects, name) < 0 ==> forall|i: int|
            0 <= i < projects.len() ==> (#[trigger] projects[i]).name != name,
        find_project(projects, name) >= 0 ==> find_project(projects, name) < projects.len()
            && projects[find_project(projects, name)].name == name && forall|i: int|
            0 <= i < find_project(projects, name) ==> (#[trigger] projects[i]).name != name,
    decreases projects.len(),
{
    if projects.len() > 0 && projects[0].name != name {
        lemma_find_project(projects.drop_first(), name);
        assert(forall|i: int|
            1 <= i < projects.len() ==> projects[i] == projects.drop_first()[i - 1]);
    }
}

/// The index of the file record of `(project_id, relative_path)`, or `-1`.
pub open spec fn find_file(files: Seq<FileModel>, project_id: u64, path: Seq<char>) -> int
    decreases files.len(),
{
    if files.len() == 0 {
        -1
    } else if files[0].project_id == project_id && files[0].relative_path == path {
        0
    } else if find_file(files.drop_first(), project_id, path) < 0 {
        -1
    } else {
        find_file(files.drop_first(), project_id, path) + 1
    }
}

/// `find_file` points at the first record of `(project_id, relative_path)`,
/// and is `-1` exactly when there is none.
pub proof fn lemma_find_file(files: Seq<FileModel>, project_id: u64, path: Seq<char>)
    ensures
        find_file(files, project_id, path) >= 0 || find_file(files, project_id, path) == -1,
        find_file(files, project_id, path) < 0 ==> forall|i: int|
            0 <= i < files.len() ==> !((#[trigger] files[i]).project_id == project_id
                && files[i].relative_path == path),
        find_file(files, project_id, path) >= 0 ==> find_file(files, project_id, path)
            < files.len() && files[find_file(files, project_id, path)].project_id == project_id
            && files[find_file(files, project_id, path)].relative_path == path && forall|i: int|
            0 <= i < find_file(files, project_id, path) ==> !((#[trigger] files[i]).project_id
                == project_id && files[i].relative_path == path),
    decreases files.len(),
{
    if files.len() > 0 && !(files[0].project_id == project_id && files[0].relative_path == path) {
        lemma_find_file(files.drop_first(), project_id, path);
        assert(forall|i: int| 1 <= i < files.len() ==> files[i] == files.drop_first()[i - 1]);
    }
}

/// The index of the blob of `(project_id, content_hash)`, or `-1`.
pub open spec fn find_blob(blobs: Seq<BlobModel>, project_id: u64, content_hash: u64) -> int
    decreases blobs.len(),
{
    if blobs.len() == 0 {
        -1
    } else if blobs[0].project_id == project_id && blobs[0].content_hash == content_hash {
        0
    } else if find_blob(blobs.drop_first(), project_id, content_hash) < 0 {
        -1
    } else {
        find_blob(blobs.drop_first(), project_id, content_hash) + 1
    }
}

/// `find_blob` points at the first blob of `(project_id, content_hash)`, and
/// is `-1` exactly when there is none.
pub proof fn lemma_find_blob(blobs: Seq<BlobModel>, project_id: u64, content_hash: u64)
    ensures
        find_blob(blobs, project_id, content_hash) >= 0 || find_blob(blobs, project_id, content_hash)
            == -1,
        find_blob(blobs, project_id, content_hash) < 0 ==> forall|i: int|
            0 <= i < blobs.len() ==> !((#[trigger] blobs[i]).project_id == project_id
                && blobs[i].content_hash == content_hash),
        find_blob(blobs, project_id, content_hash) >= 0 ==> find_blob(
            blobs,
            project_id,
            content_hash,
        ) < blobs.len() && blobs[find_blob(blobs, project_id, content_hash)].project_id
            == project_id && blobs[find_blob(blobs, project_id, content_hash)].content_hash
            == content_hash && forall|i: int|
            0 <= i < find_blob(blobs, project_id, content_hash) ==> !((#[trigger] blobs[i]).project_id
                == project_id && blobs[i].content_hash == content_hash),
    decreases blobs.len(),
{
    if blobs.len() > 0 && !(blobs[0].project_id == project_id && blobs[0].content_hash
        == content_hash) {
        lemma_find_blob(blobs.drop_first(), project_id, content_hash);
        assert(forall|i: int| 1 <= i < blobs.len() ==> blobs[i] == blobs.drop_first()[i - 1]);
    }
}

impl DbModel {
    /// The store's invariant: identifiers are table positions, project names
    /// are unique, at most one file record exists per
    /// `(project_id, relative_path)`, at most one blob per
    /// `(project_id, content_hash)`, and every reference resolves.
    pub open spec fn inv(self) -> bool {
        &&& forall|i: int| 0 <= i < self.projects.len() ==> (#[trigger] self.projects[i]).id == i
        &&& forall|i: int, j: int|
            #![trigger self.projects[i], self.projects[j]]
            0 <= i < j < self.projects.len() ==> self.projects[i].name != self.projects[j].name
        &&& forall|i: int| 0 <= i < self.files.len() ==> (#[trigger] self.files[i]).id == i
        &&& forall|i: int|
            0 <= i < self.files.len() ==> (#[trigger] self.files[i]).project_id
                < self.projects.len()
        &&& forall|i: int, j: int|
            #![trigger self.files[i], self.files[j]]
            0 <= i < j < self.files.len() ==> !(self.files[i].project_id
                == self.files[j].project_id && self.files[i].relative_path
                == self.files[j].relative_path)
        &&& forall|i: int|
            0 <= i < self.entries.len() ==> (#[trigger] self.entries[i]).file_id
                < self.files.len()
        &&& forall|i: int, j: int|
            #![trigger self.blobs[i], self.blobs[j]]
            0 <= i < j < self.blobs.len() ==> !(self.blobs[i].project_id
                == self.blobs[j].project_id && self.blobs[i].content_hash
                == self.blobs[j].content_hash)
        &&& forall|i: int|
            0 <= i < self.blobs.len() ==> (#[trigger] self.blobs[i]).project_id
                < self.projects.len()
    }

    /// Registration: an upsert keyed by the project's name. Re-registration
    /// overwrites the source root and refreshes `updated_at`, keeping the
    /// identifier and `created_at`; a new name appends a fresh project.
    pub open spec fn register(self, name: Seq<char>, root: Seq<char>, now: u64) -> DbModel {
        let j = find_project(self.projects, name);
        if j >= 0 {
            DbModel {
                projects: self.projects.update(
                    j,
                    ProjectModel {
                        source_root: root,
                        updated_at: now,
                        ..self.projects[j]
                    },
                ),
                ..self
            }
        } else {
            DbModel {
                projects: self.projects.push(
                    ProjectModel {
                        id: self.projects.len() as u64,
                        name: name,
                        source_root: root,
                        created_at: now,
                        updated_at: now,
                    },
                ),
                ..self
            }
        }
    }
}

/// The largest number of results one search call returns.
pub const MAX_RESULTS: usize = 100;

impl DbModel {
    /// The full context stored for `(project_id, content_hash)`: the blob's
    /// bytes decompressed, or nothing when the blob is absent or corrupt.
    pub open spec fn context_of(self, project_id: u64, content_hash: u64) -> Option<Seq<char>> {
        let bj = find_blob(self.blobs, project_id, content_hash);
        if bj >= 0 {
            codec::zstd_decode(self.blobs[bj].bytes)
        } else {
            None
        }
    }

    /// What one index entry contributes to a search over `project_id`: a
    /// result when the entry belongs to a file of that project and its line
    /// holds `query` as a substring, and nothing otherwise.
    pub open spec fn entry_match(
        self,
        project_id: u64,
        query: Seq<char>,
        want_full: bool,
        e: EntryModel,
    ) -> Option<ResultModel> {
        if e.file_id < self.files.len() {
            let f = self.files[e.file_id as int];
            if f.project_id == project_id && text::has_substring(e.line_content, query) {
                Some(
                    ResultModel {
                        file_path: f.relative_path,
                        line_number: e.line_number,
                        line_content: e.line_content,
                        full_context: if want_full {
                            self.context_of(project_id, f.content_hash)
                        } else {
                            None
                        },
                    },
                )
            } else {
                None
            }
        } else {
            None
        }
    }

    /// Every match of `query` in the project's index, in index order.
    pub open spec fn search_matches(self, project_id: u64, query: Seq<char>, want_full: bool) -> Seq<
        ResultModel,
    > {
        self.entries.filter_map(|e: EntryModel| self.entry_match(project_id, query, want_full, e))
    }

    /// A search's results: the matches in index order, capped at
    /// [`MAX_RESULTS`].
    pub open spec fn search(self, project_id: u64, query: Seq<char>, want_full: bool) -> Seq<
        ResultModel,
    > {
        let all = self.search_matches(project_id, query, want_full);
        if all.len() <= MAX_RESULTS {
            all
        } else {
            all.take(MAX_RESULTS as int)
        }
    }
}

/// How many of a batch's inputs were readable, and so count toward
/// ingestion's result.
pub open spec fn readable_count(inputs: Seq<InputModel>) -> nat {
    inputs.filter(|x: InputModel| x.content is Some).len()
}

impl DbModel {
    /// Ingestion of one readable file into a project: the compressed content
    /// is upserted into the blob store under the content's digest; the file
    /// record of `(project_id, name component of path)` is created when
    /// absent and kept untouched when present; and the file's index entries
    /// are replaced as a unit by one entry per line of the new content,
    /// numbered from 1 in file order.
    pub open spec fn ingest_file(
        self,
        project_id: u64,
        path: Seq<char>,
        content: Seq<char>,
        now: u64,
    ) -> DbModel {
        let hash = hashing::fnv1a_hash(content);
        let compressed = codec::zstd_of(content);
        let rel = text::spec_name_component(path);
        let lines = text::spec_lines(content);
        let bj = find_blob(self.blobs, project_id, hash);
        let new_blob = BlobModel { project_id, content_hash: hash, bytes: compressed };
        let blobs1 = if bj >= 0 {
            self.blobs.update(bj, new_blob)
        } else {
            self.blobs.push(new_blob)
        };
        let fj = find_file(self.files, project_id, rel);
        let fid = if fj >= 0 {
            self.files[fj].id
        } else {
            self.files.len() as u64
        };
        let files1 = if fj >= 0 {
            self.files
        } else {
            self.files.push(
                FileModel {
                    id: self.files.len() as u64,
                    project_id,
                    relative_path: rel,
                    content_hash: hash,
                    compressed_size: compressed.len(),
                    created_at: now,
                },
            )
        };
        let entries1 = self.entries.filter(|e: EntryModel| e.file_id != fid) + Seq::new(
            lines.len(),
            |k: int| EntryModel { file_id: fid, line_number: (k + 1) as usize, line_content: lines[k] },
        );
        DbModel { files: files1, entries: entries1, blobs: blobs1, ..self }
    }

    /// Ingestion of a batch, in order: each readable input is ingested, each
    /// unreadable one is skipped and changes nothing.
    pub open spec fn ingest(self, project_id: u64, inputs: Seq<InputModel>, now: u64) -> DbModel
        decreases inputs.len(),
    {
        if inputs.len() == 0 {
            self
        } else {
            let prev = self.ingest(project_id, inputs.drop_last(), now);
            match inputs.last().content {
                Some(c) => prev.ingest_file(project_id, inputs.last().path, c, now),
                None => prev,
            }
        }
    }
}

/// One more input extends a batch ingestion by one step.
proof fn lemma_ingest_take_succ(m: DbModel, project_id: u64, inputs: Seq<InputModel>, now: u64, i: int)
    requires
        0 <= i < inputs.len(),
    ensures
        m.ingest(project_id, inputs.take(i + 1), now) == (match inputs[i].content {
            Some(c) => m.ingest(project_id, inputs.take(i), now).ingest_file(
                project_id,
                inputs[i].path,
                c,
                now,
            ),
            None => m.ingest(project_id, inputs.take(i), now),
        }),
{
    assert(inputs.take(i + 1).drop_last() =~= inputs.take(i));
    assert(inputs.take(i + 1).last() == inputs[i]);
}

/// One more input raises `readable_count` by one when readable, and by
/// nothing when not.
proof fn lemma_readable_take_succ(inputs: Seq<InputModel>, i: int)
    requires
        0 <= i < inputs.len(),
    ensures
        readable_count(inputs.take(i + 1)) == readable_count(inputs.take(i)) + (
        if inputs[i].content is Some {
            1int
        } else {
            0int
        }),
{
    let pred = |x: InputModel| x.content is Some;
    assert(inputs.take(i + 1) =~= inputs.take(i).push(inputs[i]));
    inputs.take(i).lemma_filter_push(inputs[i], pred);
}

/// A prefix of the input contributes a prefix of `filter_map`'s output.
proof fn lemma_filter_map_prefix<A, B>(s: Seq<A>, f: spec_fn(A) -> Option<B>, i: int)
    requires
        0 <= i <= s.len(),
    ensures
        s.take(i).filter_map(f).is_prefix_of(s.filter_map(f)),
    decreases s.len() - i,
{
    if i == s.len() {
        assert(s.take(i) =~= s);
    } else {
        lemma_filter_map_prefix(s, f, i + 1);
        s.lemma_filter_map_take_succ(f, i);
        let a = s.take(i).filter_map(f);
        let b = s.take(i + 1).filter_map(f);
        let c = s.filter_map(f);
        assert(a =~= c.take(a.len() as int));
    }
}

/// How many file records a project holds for one relative path.
pub open spec fn file_count(files: Seq<FileModel>, project_id: u64, rel: Seq<char>) -> nat {
    files.filter(|f: FileModel| f.project_id == project_id && f.relative_path == rel).len()
}

/// The index entries of one file, in index order.
pub open spec fn entries_of(m: DbModel, fid: u64) -> Seq<EntryModel> {
    m.entries.filter(|e: EntryModel| e.file_id == fid)
}

/// Every element satisfies the predicate, so filtering keeps the sequence.
proof fn lemma_filter_all<A>(s: Seq<A>, pred: spec_fn(A) -> bool)
    requires
        forall|i: int| 0 <= i < s.len() ==> pred(#[trigger] s[i]),
    ensures
        s.filter(pred) == s,
    decreases s.len(),
{
    reveal(Seq::filter);
    if s.len() == 0 {
        assert(s.filter(pred) =~= s);
    } else {
        lemma_filter_all(s.drop_last(), pred);
        assert(pred(s.last()));
        assert(s.drop_last().push(s.last()) =~= s);
    }
}

/// Exactly one element satisfies the predicate, so the filtered sequence has
/// length one.
proof fn lemma_filter_single<A>(s: Seq<A>, pred: spec_fn(A) -> bool, i: int)
    requires
        0 <= i < s.len(),
        pred(s[i]),
        forall|j: int| 0 <= j < s.len() && j != i ==> !pred(#[trigger] s[j]),
    ensures
        s.filter(pred).len() == 1,
    decreases s.len(),
{
    reveal(Seq::filter);
    if i == s.len() - 1 {
        s.drop_last().lemma_all_neg_filter_empty(pred);
        assert(pred(s.last()));
    } else {
        lemma_filter_single(s.drop_last(), pred, i);
        assert(!pred(s.last()));
    }
}

/// Law: re-ingesting a path replaces that file's index as a unit. After a
/// second ingestion of the same path — whatever either content was — the
/// catalog holds exactly one file record for it, and the file's index
/// entries are exactly one per line of the second content, numbered from 1
/// in file order: M entries for M lines, none stale.
pub proof fn lemma_reingest_replace_semantics(
    m: DbModel,
    project_id: u64,
    path: Seq<char>,
    c1: Seq<char>,
    c2: Seq<char>,
    t1: u64,
    t2: u64,
)
    requires
        m.inv(),
        project_id < m.projects.len(),
    ensures
        ({
            let m1 = m.ingest_file(project_id, path, c1, t1);
            let m2 = m1.ingest_file(project_id, path, c2, t2);
            let rel = text::spec_name_component(path);
            let fj = find_file(m1.files, project_id, rel);
            let fid = m1.files[fj].id;
            &&& m2.files == m1.files
            &&& 0 <= fj < m1.files.len()
            &&& find_file(m2.files, project_id, rel) == fj
            &&& file_count(m2.files, project_id, rel) == 1
            &&& entries_of(m2, fid) == Seq::new(
                text::spec_lines(c2).len(),
                (|k: int| EntryModel {
                    file_id: fid,
                    line_number: (k + 1) as usize,
                    line_content: text::spec_lines(c2)[k],
                }),
            )
        }),
{
    let m1 = m.ingest_file(project_id, path, c1, t1);
    let m2 = m1.ingest_file(project_id, path, c2, t2);
    let rel = text::spec_name_component(path);
    let predf = |f: FileModel| f.project_id == project_id && f.relative_path == rel;
    let fj0 = find_file(m.files, project_id, rel);
    lemma_find_file(m.files, project_id, rel);
    let fj = find_file(m1.files, project_id, rel);
    lemma_find_file(m1.files, project_id, rel);
    if fj0 >= 0 {
        assert(m1.files == m.files);
        assert(fj == fj0);
        assert(predf(m1.files[fj]));
        assert forall|j: int| 0 <= j < m1.files.len() && j != fj implies !predf(
            #[trigger] m1.files[j],
        ) by {
            if predf(m1.files[j]) {
                if j < fj {
                    assert(!(m.files[j].project_id == project_id && m.files[j].relative_path
                        == rel));
                } else {
                    assert(!(m.files[fj].project_id == m.files[j].project_id
                        && m.files[fj].relative_path == m.files[j].relative_path));
                }
            }
        }
        lemma_filter_single(m1.files, predf, fj);
    } else {
        let len0 = m.files.len() as int;
        assert(m1.files[len0].project_id == project_id && m1.files[len0].relative_path == rel);
        assert forall|j: int| 0 <= j < len0 implies !predf(#[trigger] m1.files[j]) by {
            assert(m1.files[j] == m.files[j]);
            assert(!(m.files[j].project_id == project_id && m.files[j].relative_path == rel));
        }
        assert(fj == len0);
        assert(predf(m1.files[fj]));
        lemma_filter_single(m1.files, predf, fj);
    }
    let fid = m1.files[fj].id;
    lemma_find_file(m2.files, project_id, rel);
    assert(m2.files == m1.files);
    let ne = |e: EntryModel| e.file_id != fid;
    let eqf = |e: EntryModel| e.file_id == fid;
    let kept = m1.entries.filter(ne);
    let fresh = Seq::new(
        text::spec_lines(c2).len(),
        (|k: int| EntryModel {
            file_id: fid,
            line_number: (k + 1) as usize,
            line_content: text::spec_lines(c2)[k],
        }),
    );
    assert(m2.entries =~= kept + fresh);
    Seq::filter_distributes_over_add(kept, fresh, eqf);
    assert forall|t: int| 0 <= t < kept.len() implies !eqf(#[trigger] kept[t]) by {
        m1.entries.lemma_filter_pred(ne, t);
    }
    kept.lemma_all_neg_filter_empty(eqf);
    assert(kept.filter(eqf) =~= Seq::<EntryModel>::empty());
    lemma_filter_all(fresh, eqf);
    assert(entries_of(m2, fid) =~= fresh);
}

/// Law: ingesting the same unchanged file twice accumulates nothing. One
/// file record remains for the path, and its index entries number exactly
/// the content's lines.
pub proof fn lemma_ingest_idempotent(
    m: DbModel,
    project_id: u64,
    path: Seq<char>,
    content: Seq<char>,
    t1: u64,
    t2: u64,
)
    requires
        m.inv(),
        project_id < m.projects.len(),
    ensures
        ({
            let m1 = m.ingest_file(project_id, path, content, t1);
            let m2 = m1.ingest_file(project_id, path, content, t2);
            let rel = text::spec_name_component(path);
            let fj = find_file(m1.files, project_id, rel);
            &&& file_count(m2.files, project_id, rel) == 1
            &&& entries_of(m2, m1.files[fj].id).len() == text::spec_lines(content).len()
        }),
{
    lemma_reingest_replace_semantics(m, project_id, path, content, content, t1, t2);
}

/// The in-memory content store: catalog tables and content-addressed blobs.
pub struct ContextDB {
    projects: Vec<Project>,
    files: Vec<FileRecord>,
    entries: Vec<IndexEntry>,
    blobs: Vec<Blob>,
}

impl View for ContextDB {
    type V = DbModel;

    closed spec fn view(&self) -> DbModel {
        DbModel {
            projects: self.projects@.map_values(|p: Project| p@),
            files: self.files@.map_values(|f: FileRecord| f@),
            entries: self.entries@.map_values(|e: IndexEntry| e@),
            blobs: self.blobs@.map_values(|b: Blob| b@),
        }
    }
}

impl ContextDB {
    /// The store's invariant, as seen through its model.
    pub open spec fn wf(&self) -> bool {
        self@.inv()
    }

    /// Creates an empty store.
    pub fn new() -> (db: ContextDB)
        ensures
            db.wf(),
            db@.projects == Seq::<ProjectModel>::empty(),
            db@.files == Seq::<FileModel>::empty(),
            db@.entries == Seq::<EntryModel>::empty(),
            db@.blobs == Seq::<BlobModel>::empty(),
    {
        let db = ContextDB { projects: Vec::new(), files: Vec::new(), entries: Vec::new(), blobs: Vec::new() };
        proof {
            assert(db@.projects =~= Seq::<ProjectModel>::empty());
            assert(db@.files =~= Seq::<FileModel>::empty());
            assert(db@.entries =~= Seq::<EntryModel>::empty());
            assert(db@.blobs =~= Seq::<BlobModel>::empty());
        }
        db
    }

    /// Finds the registered project named `name` and returns its identifier.
    fn lookup_project(&self, name: &str) -> (r: Option<u64>)
        requires
            self.wf(),
        ensures
            r matches Some(pid) ==> find_project(self@.projects, name@) == pid
                && pid < self@.projects.len(),
            r is None ==> find_project(self@.projects, name@) == -1,
    {
        let n = self.projects.len();
        let mut j: usize = 0;
        while j < n
            invariant
                self.wf(),
                n == self.projects.len(),
                j <= n,
                self@.projects.len() == n,
                forall|k: int| 0 <= k < j ==> (#[trigger] self@.projects[k]).name != name@,
            decreases n - j,
        {
            if text::str_eq(self.projects[j].name.as_str(), name) {
                proof {
                    lemma_find_project(self@.projects, name@);
                    assert(self@.projects[j as int].name == name@);
                }
                return Some(self.projects[j].id);
            }
            proof {
                assert(self@.projects[j as int].name == self.projects@[j as int].name@);
            }
            j = j + 1;
        }
        proof {
            lemma_find_project(self@.projects, name@);
        }
        None
    }

    /// Registers a project, or re-registers it: an upsert keyed by `name`
    /// that never errors. `now` is the caller's clock reading, stored as the
    /// new `updated_at` (and as `created_at` for a fresh project).
    pub fn init_project(&mut self, name: &str, source_root: &str, now: u64)
        requires
            old(self).wf(),
        ensures
            final(self).wf(),
            final(self)@ == old(self)@.register(name@, source_root@, now),
    {
        let ghost m0 = self@;
        proof {
            lemma_find_project(m0.projects, name@);
        }
        let n = self.projects.len();
        let mut j: usize = 0;
        while j < n
            invariant
                n == self.projects.len(),
                j <= n,
                self@ == m0,
                m0 == old(self)@,
                self@.inv(),
                self@.projects.len() == n,
                forall|k: int| 0 <= k < j ==> (#[trigger] self@.projects[k]).name != name@,
            decreases n - j,
        {
            if text::str_eq(self.projects[j].name.as_str(), name) {
                proof {
                    lemma_find_project(m0.projects, name@);
                    assert(m0.projects[j as int].name == name@);
                    assert(find_project(m0.projects, name@) == j);
                }
                let updated = {
                    let p = &self.projects[j];
                    Project {
                        id: p.id,
                        name: p.name.clone(),
                        source_root: source_root.to_owned(),
                        created_at: p.created_at,
                        updated_at: now,
                    }
                };
                self.projects[j] = updated;
                proof {
                    assert(self@.projects =~= m0.projects.update(
                        j as int,
                        ProjectModel {
                            source_root: source_root@,
                            updated_at: now,
                            ..m0.projects[j as int]
                        },
                    ));
                    assert(self@ == m0.register(name@, source_root@, now));
                    assert(self@.inv());
                }
                return ;
            }
            proof {
                assert(self@.projects[j as int].name == self.projects@[j as int].name@);
            }
            j = j + 1;
        }
        proof {
            lemma_find_project(m0.projects, name@);
            assert(find_project(m0.projects, name@) == -1);
        }
        let id = self.projects.len() as u64;
        self.projects.push(
            Project {
                id,
                name: name.to_owned(),
                source_root: source_root.to_owned(),
                created_at: now,
                updated_at: now,
            },
        );
        proof {
            assert(self@.projects =~= m0.projects.push(
                ProjectModel {
                    id: m0.projects.len() as u64,
                    name: name@,
                    source_root: source_root@,
                    created_at: now,
                    updated_at: now,
                },
            ));
            assert(self@ == m0.register(name@, source_root@, now));
            assert forall|i: int, k: int|
                #![trigger self@.projects[i], self@.projects[k]]
                0 <= i < k < self@.projects.len() implies self@.projects[i].name
                != self@.projects[k].name by {
                if k == self@.projects.len() - 1 {
                    assert(m0.projects[i].name != name@);
                }
            }
            assert(self@.inv());
        }
    }

    /// Upserts the blob of `(project_id, content_hash)`: an existing blob at
    /// that key is overwritten, otherwise the blob is appended.
    fn upsert_blob(&mut self, project_id: u64, content_hash: u64, bytes: Vec<u8>)
        requires
            old(self).wf(),
            project_id < old(self)@.projects.len(),
        ensures
            final(self).wf(),
            ({
                let bj = find_blob(old(self)@.blobs, project_id, content_hash);
                let new_blob = BlobModel { project_id, content_hash, bytes: bytes@ };
                final(self)@.blobs == if bj >= 0 {
                    old(self)@.blobs.update(bj, new_blob)
                } else {
                    old(self)@.blobs.push(new_blob)
                }
            }),
            final(self)@.projects == old(self)@.projects,
            final(self)@.files == old(self)@.files,
            final(self)@.entries == old(self)@.entries,
    {
        let ghost m0 = self@;
        let n = self.blobs.len();
        let mut j: usize = 0;
        while j < n
            invariant
                self@ == m0,
                m0 == old(self)@,
                self.wf(),
                n == self.blobs.len(),
                j <= n,
                m0.blobs.len() == n,
                forall|k: int|
                    0 <= k < j ==> !((#[trigger] m0.blobs[k]).project_id == project_id
                        && m0.blobs[k].content_hash == content_hash),
            decreases n - j,
        {
            if self.blobs[j].project_id == project_id && self.blobs[j].content_hash
                == content_hash {
                proof {
                    lemma_find_blob(m0.blobs, project_id, content_hash);
                    assert(m0.blobs[j as int] == self.blobs@[j as int]@);
                    assert(find_blob(m0.blobs, project_id, content_hash) == j);
                }
                self.blobs[j] = Blob { project_id, content_hash, bytes };
                proof {
                    assert(self@.blobs =~= m0.blobs.update(
                        j as int,
                        BlobModel { project_id, content_hash, bytes: bytes@ },
                    ));
                    assert(self@.projects =~= m0.projects);
                    assert(self@.files =~= m0.files);
                    assert(self@.entries =~= m0.entries);
                    assert forall|i: int, k: int|
                        #![trigger self@.blobs[i], self@.blobs[k]]
                        0 <= i < k < self@.blobs.len() implies !(self@.blobs[i].project_id
                        == self@.blobs[k].project_id && self@.blobs[i].content_hash
                        == self@.blobs[k].content_hash) by {
                        assert(!(m0.blobs[i].project_id == m0.blobs[k].project_id
                            && m0.blobs[i].content_hash == m0.blobs[k].content_hash));
                        assert(m0.blobs[j as int].project_id == project_id);
                        assert(m0.blobs[j as int].content_hash == content_hash);
                    }
                    assert(self@.inv());
                }
                return ;
            }
            proof {
                assert(m0.blobs[j as int] == self.blobs@[j as int]@);
            }
            j = j + 1;
        }
        proof {
            lemma_find_blob(m0.blobs, project_id, content_hash);
            assert(find_blob(m0.blobs, project_id, content_hash) == -1);
        }
        self.blobs.push(Blob { project_id, content_hash, bytes });
        proof {
            assert(self@.blobs =~= m0.blobs.push(
                BlobModel { project_id, content_hash, bytes: bytes@ },
            ));
            assert(self@.projects =~= m0.projects);
            assert(self@.files =~= m0.files);
            assert(self@.entries =~= m0.entries);
            assert forall|i: int, k: int|
                #![trigger self@.blobs[i], self@.blobs[k]]
                0 <= i < k < self@.blobs.len() implies !(self@.blobs[i].project_id
                == self@.blobs[k].project_id && self@.blobs[i].content_hash
                == self@.blobs[k].content_hash) by {
                if k == self@.blobs.len() - 1 {
                    assert(!(m0.blobs[i].project_id == project_id && m0.blobs[i].content_hash
                        == content_hash));
                }
            }
            assert(self@.inv());
        }
    }

    /// Locates the file record of `(project_id, name component)`, creating it
    /// when absent, and returns its identifier. An existing record is kept
    /// untouched.
    fn upsert_file(&mut self, project_id: u64, rel: &str, content_hash: u64, size: usize, now: u64) -> (fid: u64)
        requires
            old(self).wf(),
            project_id < old(self)@.projects.len(),
        ensures
            final(self).wf(),
            ({
                let fj = find_file(old(self)@.files, project_id, rel@);
                &&& fid == if fj >= 0 {
                    old(self)@.files[fj].id
                } else {
                    old(self)@.files.len() as u64
                }
                &&& final(self)@.files == if fj >= 0 {
                    old(self)@.files
                } else {
                    old(self)@.files.push(
                        FileModel {
                            id: old(self)@.files.len() as u64,
                            project_id,
                            relative_path: rel@,
                            content_hash,
                            compressed_size: size as nat,
                            created_at: now,
                        },
                    )
                }
            }),
            fid < final(self)@.files.len(),
            final(self)@.projects == old(self)@.projects,
            final(self)@.entries == old(self)@.entries,
            final(self)@.blobs == old(self)@.blobs,
    {
        let ghost m0 = self@;
        let n = self.files.len();
        let mut j: usize = 0;
        while j < n
            invariant
                self@ == m0,
                m0 == old(self)@,
                self.wf(),
                n == self.files.len(),
                j <= n,
                m0.files.len() == n,
                forall|k: int|
                    0 <= k < j ==> !((#[trigger] m0.files[k]).project_id == project_id
                        && m0.files[k].relative_path == rel@),
            decreases n - j,
        {
            proof {
                assert(m0.files[j as int] == self.files@[j as int]@);
            }
            if self.files[j].project_id == project_id && text::str_eq(
                self.files[j].relative_path.as_str(),
                rel,
            ) {
                proof {
                    lemma_find_file(m0.files, project_id, rel@);
                    assert(find_file(m0.files, project_id, rel@) == j);
                }
                return self.files[j].id;
            }
            j = j + 1;
        }
        proof {
            lemma_find_file(m0.files, project_id, rel@);
            assert(find_file(m0.files, project_id, rel@) == -1);
        }
        let fid = self.files.len() as u64;
        self.files.push(
            FileRecord {
                id: fid,
                project_id,
                relative_path: rel.to_owned(),
                content_hash,
                compressed_size: size,
                created_at: now,
            },
        );
        proof {
            assert(self@.files =~= m0.files.push(
                FileModel {
                    id: m0.files.len() as u64,
                    project_id,
                    relative_path: rel@,
                    content_hash,
                    compressed_size: size as nat,
                    created_at: now,
                },
            ));
            assert(self@.projects =~= m0.projects);
            assert(self@.entries =~= m0.entries);
            assert(self@.blobs =~= m0.blobs);
            assert forall|i: int, k: int|
                #![trigger self@.files[i], self@.files[k]]
                0 <= i < k < self@.files.len() implies !(self@.files[i].project_id
                == self@.files[k].project_id && self@.files[i].relative_path
                == self@.files[k].relative_path) by {
                if k == self@.files.len() - 1 {
                    assert(!(m0.files[i].project_id == project_id && m0.files[i].relative_path
                        == rel@));
                }
            }
            assert(self@.inv());
        }
        fid
    }

    /// Replaces every index entry of `fid` as a unit: the old entries vanish
    /// and one entry per line of the fresh content takes their place,
    /// numbered from 1 in file order.
    fn replace_entries(&mut self, fid: u64, lines: &Vec<String>)
        requires
            old(self).wf(),
            fid < old(self)@.files.len(),
        ensures
            final(self).wf(),
            final(self)@.entries == old(self)@.entries.filter(|e: EntryModel| e.file_id != fid)
                + Seq::new(
                lines@.len(),
                (|k: int| EntryModel {
                    file_id: fid,
                    line_number: (k + 1) as usize,
                    line_content: lines@[k]@,
                }),
            ),
            final(self)@.projects == old(self)@.projects,
            final(self)@.files == old(self)@.files,
            final(self)@.blobs == old(self)@.blobs,
    {
        let ghost m0 = self@;
        let ghost pred = |e: EntryModel| e.file_id != fid;
        let n = self.entries.len();
        let mut kept: Vec<IndexEntry> = Vec::new();
        let mut j: usize = 0;
        proof {
            assert(m0.entries.take(0).filter(pred) =~= Seq::<EntryModel>::empty());
            assert(kept@.map_values(|e: IndexEntry| e@) =~= Seq::<EntryModel>::empty());
        }
        while j < n
            invariant
                self@ == m0,
                m0 == old(self)@,
                self.wf(),
                pred == (|e: EntryModel| e.file_id != fid),
                n == self.entries.len(),
                j <= n,
                m0.entries.len() == n,
                kept@.map_values(|e: IndexEntry| e@) == m0.entries.take(j as int).filter(pred),
                forall|t: int|
                    0 <= t < kept@.len() ==> (#[trigger] kept@[t]).file_id < m0.files.len(),
            decreases n - j,
        {
            proof {
                assert(m0.entries[j as int] == self.entries@[j as int]@);
                assert(m0.entries.take(j + 1) =~= m0.entries.take(j as int).push(
                    m0.entries[j as int],
                ));
                m0.entries.take(j as int).lemma_filter_push(m0.entries[j as int], pred);
            }
            let e = &self.entries[j];
            let ghost kept0 = kept@;
            if e.file_id != fid {
                kept.push(
                    IndexEntry {
                        file_id: e.file_id,
                        line_number: e.line_number,
                        line_content: e.line_content.clone(),
                    },
                );
                proof {
                    assert(kept@.map_values(|x: IndexEntry| x@) =~= kept0.map_values(
                        |x: IndexEntry| x@,
                    ).push(kept@.last()@));
                }
            }
            j = j + 1;
        }
        proof {
            assert(m0.entries.take(n as int) =~= m0.entries);
        }
        self.entries = kept;
        let ghost base = m0.entries.filter(pred);
        let m = lines.len();
        let mut k: usize = 0;
        while k < m
            invariant
                m0 == old(self)@,
                self@.projects == m0.projects,
                self@.files == m0.files,
                self@.blobs == m0.blobs,
                m0.inv(),
                fid < m0.files.len(),
                base == m0.entries.filter(pred),
                m == lines@.len(),
                k <= m,
                self@.entries == base + Seq::new(
                    k as nat,
                    (|t: int| EntryModel {
                        file_id: fid,
                        line_number: (t + 1) as usize,
                        line_content: lines@[t]@,
                    }),
                ),
                forall|t: int|
                    0 <= t < self@.entries.len() ==> (#[trigger] self@.entries[t]).file_id
                        < m0.files.len(),
            decreases m - k,
        {
            let ghost before = self@.entries;
            self.entries.push(
                IndexEntry {
                    file_id: fid,
                    line_number: k + 1,
                    line_content: lines[k].clone(),
                },
            );
            proof {
                assert(self@.entries =~= before.push(
                    EntryModel { file_id: fid, line_number: (k + 1) as usize, line_content: lines@[k as int]@ },
                ));
                assert(self@.entries =~= base + Seq::new(
                    (k + 1) as nat,
                    (|t: int| EntryModel {
                        file_id: fid,
                        line_number: (t + 1) as usize,
                        line_content: lines@[t]@,
                    }),
                ));
            }
            k = k + 1;
        }
        proof {
            assert(self@.entries =~= m0.entries.filter(pred) + Seq::new(
                lines@.len(),
                (|t: int| EntryModel {
                    file_id: fid,
                    line_number: (t + 1) as usize,
                    line_content: lines@[t]@,
                }),
            ));
            assert(self@.inv());
        }
    }

    /// Ingests a batch of already-read files into the named project, in
    /// order. An unreadable file (its content is `None`) is skipped and does
    /// not count; each readable file is compressed, hashed, archived, and
    /// indexed line by line, replacing any previous index of the same name
    /// component. Returns how many files were ingested. Fails with `NotFound`
    /// exactly when the project is not registered, and with `IoFailure` only
    /// at a readable file whose compression the backend gave up on, leaving
    /// exactly the inputs before it ingested; a batch with no readable input
    /// therefore always succeeds, with a count of zero.
    pub fn ingest(&mut self, project_name: &str, files: &Vec<FileInput>, now: u64) -> (r: Result<
        usize,
        StoreError,
    >)
        requires
            old(self).wf(),
        ensures
            final(self).wf(),
            r == Err::<usize, StoreError>(StoreError::NotFound) <==> find_project(
                old(self)@.projects,
                project_name@,
            ) < 0,
            r == Err::<usize, StoreError>(StoreError::NotFound) ==> final(self)@ == old(self)@,
            r matches Ok(count) ==> ({
                let inputs = files@.map_values(|f: FileInput| f@);
                &&& final(self)@ == old(self)@.ingest(
                    find_project(old(self)@.projects, project_name@) as u64,
                    inputs,
                    now,
                )
                &&& count == readable_count(inputs)
            }),
            r == Err::<usize, StoreError>(StoreError::IoFailure) ==> (exists|k: int|
                0 <= k < files@.len() && (#[trigger] files@[k])@.content is Some && final(self)@
                    == old(self)@.ingest(
                    find_project(old(self)@.projects, project_name@) as u64,
                    files@.take(k).map_values(|f: FileInput| f@),
                    now,
                )),
    {
        let pid = match self.lookup_project(project_name) {
            Some(p) => p,
            None => {
                return Err(StoreError::NotFound);
            },
        };
        let ghost m0 = self@;
        let ghost inputs = files@.map_values(|f: FileInput| f@);
        let n = files.len();
        let mut count: usize = 0;
        let mut i: usize = 0;
        proof {
            assert(inputs.take(0) =~= Seq::<InputModel>::empty());
            assert(inputs.take(0).filter(|x: InputModel| x.content is Some)
                =~= Seq::<InputModel>::empty());
        }
        while i < n
            invariant
                self.wf(),
                m0 == old(self)@,
                inputs == files@.map_values(|f: FileInput| f@),
                n == files.len(),
                i <= n,
                inputs.len() == n,
                pid == find_project(m0.projects, project_name@),
                pid < m0.projects.len(),
                self@.projects == m0.projects,
                self@ == m0.ingest(pid, inputs.take(i as int), now),
                count == readable_count(inputs.take(i as int)),
                count <= i,
            decreases n - i,
        {
            proof {
                assert(inputs[i as int] == files@[i as int]@);
                lemma_ingest_take_succ(m0, pid, inputs, now, i as int);
                lemma_readable_take_succ(inputs, i as int);
            }
            let fi = &files[i];
            match &fi.content {
                None => {},
                Some(content) => {
                    let ghost mprev = self@;
                    let compressed = match codec::compress(content.as_str()) {
                        Some(c) => c,
                        None => {
                            proof {
                                assert(files@[i as int]@.content is Some);
                                assert(files@.take(i as int).map_values(|f: FileInput| f@)
                                    =~= inputs.take(i as int));
                                assert(self@ == m0.ingest(
                                    pid,
                                    files@.take(i as int).map_values(|f: FileInput| f@),
                                    now,
                                ));
                            }
                            return Err(StoreError::IoFailure);
                        },
                    };
                    let size = compressed.len();
                    let hash = hashing::hash_text(content.as_str());
                    let rel = text::name_component(fi.path.as_str());
                    let lines = text::split_lines(content.as_str());
                    self.upsert_blob(pid, hash, compressed);
                    let fid = self.upsert_file(pid, rel.as_str(), hash, size, now);
                    self.replace_entries(fid, &lines);
                    count = count + 1;
                    proof {
                        let spec_next = mprev.ingest_file(pid, fi.path@, content@, now);
                        assert(lines@.map_values(|l: String| l@) == text::spec_lines(content@));
                        assert(Seq::new(
                            lines@.len(),
                            (|t: int| EntryModel {
                                file_id: fid,
                                line_number: (t + 1) as usize,
                                line_content: lines@[t]@,
                            }),
                        ) =~= Seq::new(
                            text::spec_lines(content@).len(),
                            (|t: int| EntryModel {
                                file_id: fid,
                                line_number: (t + 1) as usize,
                                line_content: text::spec_lines(content@)[t],
                            }),
                        ));
                        assert(self@.entries =~= spec_next.entries);
                        assert(self@ == spec_next);
                    }
                },
            }
            i = i + 1;
        }
        proof {
            assert(inputs.take(n as int) =~= inputs);
        }
        Ok(count)
    }

    /// Fetches and decompresses the blob of `(project_id, content_hash)`,
    /// yielding `None` when the blob is absent or fails to decode.
    fn fetch_context(&self, project_id: u64, content_hash: u64) -> (r: Option<String>)
        ensures
            r matches Some(s) ==> self@.context_of(project_id, content_hash) == Some(s@),
            r is None ==> self@.context_of(project_id, content_hash) is None,
    {
        let n = self.blobs.len();
        let mut j: usize = 0;
        while j < n
            invariant
                n == self.blobs.len(),
                j <= n,
                self@.blobs.len() == n,
                forall|k: int|
                    0 <= k < j ==> !((#[trigger] self@.blobs[k]).project_id == project_id
                        && self@.blobs[k].content_hash == content_hash),
            decreases n - j,
        {
            let b = &self.blobs[j];
            if b.project_id == project_id && b.content_hash == content_hash {
                proof {
                    lemma_find_blob(self@.blobs, project_id, content_hash);
                    assert(self@.blobs[j as int].project_id == project_id);
                    assert(find_blob(self@.blobs, project_id, content_hash) == j);
                }
                return codec::decompress(b.bytes.as_slice());
            }
            proof {
                assert(self@.blobs[j as int] == self.blobs@[j as int]@);
            }
            j = j + 1;
        }
        proof {
            lemma_find_blob(self@.blobs, project_id, content_hash);
        }
        None
    }

    /// Searches one project's line index for `query` as a contiguous,
    /// case-sensitive substring. Results come in index order, at most
    /// [`MAX_RESULTS`] of them; with `whole_context` each match also carries
    /// the owning file's full decompressed content, left absent when its blob
    /// is missing or corrupt. Fails exactly when `project_name` is not
    /// registered.
    pub fn search(&self, project_name: &str, query: &str, whole_context: bool) -> (r: Result<
        Vec<SearchResult>,
        StoreError,
    >)
        requires
            self.wf(),
        ensures
            r is Ok <==> find_project(self@.projects, project_name@) >= 0,
            r matches Err(e) ==> e == StoreError::NotFound,
            r matches Ok(results) ==> results@.map_values(|x: SearchResult| x@) == self@.search(
                find_project(self@.projects, project_name@) as u64,
                query@,
                whole_context,
            ),
            r matches Ok(results) ==> results@.len() <= MAX_RESULTS,
            r matches Ok(results) ==> forall|i: int|
                0 <= i < results@.len() ==> text::has_substring(
                    (#[trigger] results@[i]).line_content@,
                    query@,
                ),
            r matches Ok(results) ==> forall|i: int|
                0 <= i < results@.len() ==> exists|k: int|
                    0 <= k < self@.files.len() && (#[trigger] self@.files[k]).project_id
                        == find_project(self@.projects, project_name@)
                        && self@.files[k].relative_path == (#[trigger] results@[i]).file_path@,
    {
        let pid = match self.lookup_project(project_name) {
            Some(p) => p,
            None => {
                return Err(StoreError::NotFound);
            },
        };
        let ghost m = self@;
        let ghost fm = |e: EntryModel| m.entry_match(pid, query@, whole_context, e);
        let n = self.entries.len();
        let mut results: Vec<SearchResult> = Vec::new();
        let mut i: usize = 0;
        proof {
            assert(m.entries.take(0).filter_map(fm) =~= Seq::<ResultModel>::empty());
            assert(results@.map_values(|x: SearchResult| x@) =~= Seq::<ResultModel>::empty());
        }
        while i < n && results.len() < MAX_RESULTS
            invariant
                self.wf(),
                m == self@,
                fm == (|e: EntryModel| m.entry_match(pid, query@, whole_context, e)),
                n == self.entries.len(),
                i <= n,
                m.entries.len() == n,
                pid < m.projects.len(),
                results@.map_values(|x: SearchResult| x@) == m.entries.take(i as int).filter_map(
                    fm,
                ),
                results@.len() <= MAX_RESULTS,
                forall|t: int|
                    0 <= t < results@.len() ==> text::has_substring(
                        (#[trigger] results@[t]).line_content@,
                        query@,
                    ),
                forall|t: int|
                    0 <= t < results@.len() ==> exists|k: int|
                        0 <= k < m.files.len() && (#[trigger] m.files[k]).project_id == pid
                            && m.files[k].relative_path == (#[trigger] results@[t]).file_path@,
            decreases n - i,
        {
            proof {
                assert(m.entries[i as int] == self.entries@[i as int]@);
            }
            let e = &self.entries[i];
            let fid = e.file_id;
            let nf = self.files.len();
            proof {
                assert(m.entries[i as int].file_id < m.files.len());
                assert(fid < nf);
                assert(fid as usize as int == fid as int);
            }
            let f = &self.files[fid as usize];
            proof {
                assert(m.files[fid as int] == self.files@[fid as int]@);
            }
            let ghost old_results = results@;
            if f.project_id == pid && text::contains_substring(e.line_content.as_str(), query) {
                let full: Option<String> = if whole_context {
                    self.fetch_context(pid, f.content_hash)
                } else {
                    None
                };
                let sr = SearchResult {
                    file_path: f.relative_path.clone(),
                    line_number: e.line_number,
                    line_content: e.line_content.clone(),
                    full_context: full,
                };
                proof {
                    assert(fm(m.entries[i as int]) == Some(sr@));
                }
                results.push(sr);
                proof {
                    m.entries.lemma_filter_map_take_succ(fm, i as int);
                    assert(results@.map_values(|x: SearchResult| x@) =~= old_results.map_values(
                        |x: SearchResult| x@,
                    ) + seq![results@.last()@]);
                    assert(results@.map_values(|x: SearchResult| x@) =~= m.entries.take(
                        i + 1,
                    ).filter_map(fm));
                }
            } else {
                proof {
                    m.entries.lemma_filter_map_take_succ(fm, i as int);
                    assert(fm(m.entries[i as int]) is None);
                    assert(m.entries.take(i + 1).filter_map(fm) =~= m.entries.take(
                        i as int,
                    ).filter_map(fm));
                }
            }
            i = i + 1;
        }
        proof {
            let all = m.search_matches(pid, query@, whole_context);
            let got = results@.map_values(|x: SearchResult| x@);
            if i == n {
                assert(m.entries.take(n as int) =~= m.entries);
                assert(got == all);
            } else {
                assert(got.len() == MAX_RESULTS);
                lemma_filter_map_prefix(m.entries, fm, i as int);
                assert(got =~= all.take(MAX_RESULTS as int));
            }
            assert(got == m.search(pid, query@, whole_context));
            assert(pid == find_project(self@.projects, project_name@));
        }
        Ok(results)
    }

    /// Returns the name of every registered project, in registration order.
    pub fn list_projects(&self) -> (names: Vec<String>)
        ensures
            names@.map_values(|s: String| s@) == self@.projects.map_values(
                |p: ProjectModel| p.name,
            ),
    {
        let n = self.projects.len();
        let mut names: Vec<String> = Vec::new();
        let mut j: usize = 0;
        while j < n
            invariant
                n == self.projects.len(),
                j <= n,
                names@.len() == j,
                forall|k: int|
                    0 <= k < j ==> (#[trigger] names@[k])@ == self@.projects[k].name,
            decreases n - j,
        {
            names.push(self.projects[j].name.clone());
            j = j + 1;
        }
        proof {
            assert(names@.map_values(|s: String| s@) =~= self@.projects.map_values(
                |p: ProjectModel| p.name,
            ));
        }
        names
    }
}

} // verus!

