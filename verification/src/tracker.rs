//! The file tracker: a durable mirror of the watched directory trees.
//! It applies the watcher's event stream to three tables — source
//! files, dirty files, and a rename log — and reconciles them with the
//! observations of each scan.  The whole transition is specified as a
//! function on the tables' mathematical views, so replaying one event
//! stream always yields one result.
use vstd::prelude::*;
use vstd::map::*;

use crate::byte_map::ByteMap;
use crate::error::Error;
use crate::utils::{clone_bytes, lex_lt, starts_with, is_prefix_of};

verus! {

/// What kind of filesystem object a path names.
#[derive(Clone, Copy, Debug, PartialEq, Eq, Structural)]
pub enum FileType {
    File,
    Directory,
    Symlink,
}

/// Whether a dirty entry records a file that exists or one that is gone.
#[derive(Clone, Copy, Debug, PartialEq, Eq, Structural)]
pub enum FileStatus {
    Exists,
    Deleted,
}

/// What the watcher observed about a file.
#[derive(Clone, Copy, Debug, PartialEq, Eq, Structural)]
pub struct FileMetadata {
    pub last_modified: u64,
    pub length: u64,
    pub file_type: FileType,
}

/// The persisted record of a source file.
#[derive(Clone, Copy, Debug, PartialEq, Eq, Structural)]
pub struct SourceFileInfo {
    pub last_modified: u64,
    pub length: u64,
    pub file_type: FileType,
}

/// The persisted record of a dirty path: its state and the latest
/// observed source information.
#[derive(Clone, Copy, Debug, PartialEq, Eq, Structural)]
pub struct DirtyFileInfo {
    pub state: FileStatus,
    pub source_info: SourceFileInfo,
}

/// What the tracker tells its listeners.
#[derive(Clone, Copy, Debug, PartialEq, Eq, Structural)]
pub enum FileTrackerEvent {
    Start,
    Update,
}

/// A recorded rename, kept until downstream clears the log.
#[derive(Debug)]
pub struct RenameFileEvent {
    pub src: Vec<u8>,
    pub dst: Vec<u8>,
}

impl View for RenameFileEvent {
    type V = (Seq<u8>, Seq<u8>);

    open spec fn view(&self) -> (Seq<u8>, Seq<u8>) {
        (self.src@, self.dst@)
    }
}

/// A row returned by the read operations: a path and what is known
/// about it.
#[derive(Debug)]
pub struct FileState {
    pub path: Vec<u8>,
    pub state: FileStatus,
    pub last_modified: u64,
    pub length: u64,
}

/// The mathematical value of a `FileState`.
pub struct FileStateView {
    pub path: Seq<u8>,
    pub state: FileStatus,
    pub last_modified: u64,
    pub length: u64,
}

impl View for FileState {
    type V = FileStateView;

    open spec fn view(&self) -> FileStateView {
        FileStateView {
            path: self.path@,
            state: self.state,
            last_modified: self.last_modified,
            length: self.length,
        }
    }
}

impl PartialEq for FileState {
    fn eq(&self, other: &FileState) -> (r: bool) {
        crate::utils::bytes_eq(&self.path, &other.path) && self.state == other.state
            && self.last_modified == other.last_modified && self.length == other.length
    }
}

impl vstd::std_specs::cmp::PartialEqSpecImpl for FileState {
    open spec fn obeys_eq_spec() -> bool {
        true
    }

    open spec fn eq_spec(&self, other: &FileState) -> bool {
        self.path@ == other.path@ && self.state == other.state && self.last_modified
            == other.last_modified && self.length == other.length
    }
}

/// One event from the directory watcher, with paths as canonical bytes.
#[derive(Debug)]
pub enum FileEvent {
    /// The path's content or metadata differs from what was seen before.
    Updated(Vec<u8>, FileMetadata),
    /// An atomic rename within the watched set: source, destination.
    Renamed(Vec<u8>, Vec<u8>, FileMetadata),
    /// The path is gone.
    Removed(Vec<u8>),
    /// A watcher failure; the flag says whether it is fatal.
    FileError(bool, String),
    /// A scan of the root begins.
    ScanStart(Vec<u8>),
    /// A scan of the root ends; carries the current watched roots.
    ScanEnd(Vec<u8>, Vec<Vec<u8>>),
}

/// The mathematical value of a `FileEvent`.
pub enum FileEventView {
    Updated(Seq<u8>, FileMetadata),
    Renamed(Seq<u8>, Seq<u8>, FileMetadata),
    Removed(Seq<u8>),
    FileError(bool, Seq<char>),
    ScanStart(Seq<u8>),
    ScanEnd(Seq<u8>, Seq<Seq<u8>>),
}

impl View for FileEvent {
    type V = FileEventView;

    open spec fn view(&self) -> FileEventView {
        match self {
            FileEvent::Updated(p, m) => FileEventView::Updated(p@, *m),
            FileEvent::Renamed(s, d, m) => FileEventView::Renamed(s@, d@, *m),
            FileEvent::Removed(p) => FileEventView::Removed(p@),
            FileEvent::FileError(fatal, msg) => FileEventView::FileError(*fatal, msg@),
            FileEvent::ScanStart(p) => FileEventView::ScanStart(p@),
            FileEvent::ScanEnd(p, dirs) => FileEventView::ScanEnd(
                p@,
                dirs@.map_values(|d: Vec<u8>| d@),
            ),
        }
    }
}

/// A scan in progress: its root and the files observed so far.
pub struct ScanContext {
    pub path: Vec<u8>,
    pub files: ByteMap<FileMetadata>,
}

/// The mathematical value of a scan frame.
pub struct ScanFrameView {
    pub path: Seq<u8>,
    pub files: Map<Seq<u8>, FileMetadata>,
}

impl View for ScanContext {
    type V = ScanFrameView;

    open spec fn view(&self) -> ScanFrameView {
        ScanFrameView { path: self.path@, files: self.files@ }
    }
}

/// The views of a stack of scan frames.
pub open spec fn stack_views(s: Seq<ScanContext>) -> Seq<ScanFrameView> {
    s.map_values(|c: ScanContext| c@)
}

/// The views of a list of paths.
pub open spec fn path_views(s: Seq<Vec<u8>>) -> Seq<Seq<u8>> {
    s.map_values(|p: Vec<u8>| p@)
}

/// The whole state of the tracker, as mathematical values.
pub struct TrackerView {
    pub source_files: Map<Seq<u8>, SourceFileInfo>,
    pub dirty_files: Map<Seq<u8>, DirtyFileInfo>,
    pub renames: Seq<(Seq<u8>, Seq<u8>)>,
    pub scan_stack: Seq<ScanFrameView>,
    pub watch_dirs: Seq<Seq<u8>>,
}

/// The source information carried by a watcher observation.
pub open spec fn info_of(m: FileMetadata) -> SourceFileInfo {
    SourceFileInfo { last_modified: m.last_modified, length: m.length, file_type: m.file_type }
}

/// Whether some watched root is a prefix of the path.
pub open spec fn under_some_dir(p: Seq<u8>, dirs: Seq<Seq<u8>>) -> bool {
    exists|i: int| 0 <= i < dirs.len() && is_prefix_of(dirs[i], p)
}

/// Records an observation in the innermost scan frame, if a scan is on.
pub open spec fn record_in_top(stack: Seq<ScanFrameView>, p: Seq<u8>, m: FileMetadata) -> Seq<
    ScanFrameView,
> {
    if stack.len() == 0 {
        stack
    } else {
        let top = stack.last();
        stack.update(
            stack.len() - 1,
            ScanFrameView { path: top.path, files: top.files.insert(p, m) },
        )
    }
}

/// Forgets a path in the innermost scan frame, if a scan is on.
pub open spec fn remove_in_top(stack: Seq<ScanFrameView>, p: Seq<u8>) -> Seq<ScanFrameView> {
    if stack.len() == 0 {
        stack
    } else {
        let top = stack.last();
        stack.update(
            stack.len() - 1,
            ScanFrameView { path: top.path, files: top.files.remove(p) },
        )
    }
}

/// The paths under `root` that the tables hold but the scan did not see.
pub open spec fn scan_removals(
    src: Map<Seq<u8>, SourceFileInfo>,
    root: Seq<u8>,
    observed: Map<Seq<u8>, FileMetadata>,
) -> Set<Seq<u8>> {
    Set::new(
        |p: Seq<u8>|
            src.dom().contains(p) && is_prefix_of(root, p) && !observed.dom().contains(p),
    )
}

/// The paths that no currently watched root covers.
pub open spec fn stale_removals(
    src: Map<Seq<u8>, SourceFileInfo>,
    watched: Seq<Seq<u8>>,
) -> Set<Seq<u8>> {
    Set::new(|p: Seq<u8>| src.dom().contains(p) && !under_some_dir(p, watched))
}

/// Treats each path of `rem` as removed: its dirty entry records the
/// deletion with the last known source information.
pub open spec fn mark_deleted(
    dirty: Map<Seq<u8>, DirtyFileInfo>,
    src: Map<Seq<u8>, SourceFileInfo>,
    rem: Set<Seq<u8>>,
) -> Map<Seq<u8>, DirtyFileInfo> {
    Map::new(
        |p: Seq<u8>| dirty.dom().contains(p) || (rem.contains(p) && src.dom().contains(p)),
        |p: Seq<u8>|
            if rem.contains(p) && src.dom().contains(p) {
                DirtyFileInfo { state: FileStatus::Deleted, source_info: src[p] }
            } else {
                dirty[p]
            },
    )
}

/// One step of the tracker: the state after the event, what is emitted
/// to listeners, and whether the event was fatal.
pub struct TrackerStep {
    pub state: TrackerView,
    pub emit: Option<FileTrackerEvent>,
    pub ok: bool,
}

/// The `Updated` transition: record the observation in the innermost
/// scan; when the stored information differs, write the new source row
/// and mark the path dirty.
pub open spec fn apply_updated(s: TrackerView, p: Seq<u8>, m: FileMetadata) -> TrackerView {
    let stack1 = record_in_top(s.scan_stack, p, m);
    let changed = !s.source_files.dom().contains(p) || s.source_files[p] != info_of(m);
    if changed {
        TrackerView {
            source_files: s.source_files.insert(p, info_of(m)),
            dirty_files: s.dirty_files.insert(
                p,
                DirtyFileInfo { state: FileStatus::Exists, source_info: info_of(m) },
            ),
            renames: s.renames,
            scan_stack: stack1,
            watch_dirs: s.watch_dirs,
        }
    } else {
        TrackerView {
            source_files: s.source_files,
            dirty_files: s.dirty_files,
            renames: s.renames,
            scan_stack: stack1,
            watch_dirs: s.watch_dirs,
        }
    }
}

/// The `Renamed` transition: move the source row, mark the old path
/// deleted and the new one dirty, and append to the rename log.
pub open spec fn apply_renamed(
    s: TrackerView,
    src_p: Seq<u8>,
    dst_p: Seq<u8>,
    m: FileMetadata,
) -> TrackerView {
    let stack1 = remove_in_top(record_in_top(s.scan_stack, dst_p, m), src_p);
    TrackerView {
        source_files: s.source_files.remove(src_p).insert(dst_p, info_of(m)),
        dirty_files: s.dirty_files.insert(
            src_p,
            DirtyFileInfo { state: FileStatus::Deleted, source_info: info_of(m) },
        ).insert(dst_p, DirtyFileInfo { state: FileStatus::Exists, source_info: info_of(m) }),
        renames: s.renames.push((src_p, dst_p)),
        scan_stack: stack1,
        watch_dirs: s.watch_dirs,
    }
}

/// The `Removed` transition: if the path was tracked, its dirty entry
/// records the deletion with the last known information; the source
/// row goes away.
pub open spec fn apply_removed(s: TrackerView, p: Seq<u8>) -> TrackerView {
    let stack1 = remove_in_top(s.scan_stack, p);
    let dirty1 = if s.source_files.dom().contains(p) {
        s.dirty_files.insert(
            p,
            DirtyFileInfo { state: FileStatus::Deleted, source_info: s.source_files[p] },
        )
    } else {
        s.dirty_files
    };
    TrackerView {
        source_files: s.source_files.remove(p),
        dirty_files: dirty1,
        renames: s.renames,
        scan_stack: stack1,
        watch_dirs: s.watch_dirs,
    }
}

/// The `ScanEnd` transition: paths under the root that the scan did
/// not observe are treated as removed; when the outermost scan ends,
/// paths under no watched root are treated as removed too.
pub open spec fn apply_scan_end(s: TrackerView, root: Seq<u8>, watched: Seq<Seq<u8>>) -> TrackerView
    recommends
        s.scan_stack.len() > 0,
{
    let frame = s.scan_stack.last();
    let stack1 = s.scan_stack.drop_last();
    let rem1 = scan_removals(s.source_files, root, frame.files);
    let src1 = s.source_files.remove_keys(rem1);
    let dirty1 = mark_deleted(s.dirty_files, s.source_files, rem1);
    if stack1.len() == 0 {
        let rem2 = stale_removals(src1, watched);
        let src2 = src1.remove_keys(rem2);
        let dirty2 = mark_deleted(dirty1, src1, rem2);
        TrackerView {
            source_files: src2,
            dirty_files: dirty2,
            renames: s.renames,
            scan_stack: stack1,
            watch_dirs: s.watch_dirs,
        }
    } else {
        TrackerView {
            source_files: src1,
            dirty_files: dirty1,
            renames: s.renames,
            scan_stack: stack1,
            watch_dirs: s.watch_dirs,
        }
    }
}

/// The tracker's transition function: one event in, the next state,
/// the listener notification, and whether the event was fatal.
pub open spec fn apply_file_event(s: TrackerView, e: FileEventView) -> TrackerStep {
    match e {
        FileEventView::Updated(p, m) => TrackerStep {
            state: apply_updated(s, p, m),
            emit: Option::None,
            ok: true,
        },
        FileEventView::Renamed(src_p, dst_p, m) => TrackerStep {
            state: apply_renamed(s, src_p, dst_p, m),
            emit: Option::None,
            ok: true,
        },
        FileEventView::Removed(p) => TrackerStep {
            state: apply_removed(s, p),
            emit: Option::None,
            ok: true,
        },
        FileEventView::FileError(fatal, _msg) => TrackerStep {
            state: s,
            emit: Option::None,
            ok: !fatal,
        },
        FileEventView::ScanStart(p) => TrackerStep {
            state: TrackerView {
                source_files: s.source_files,
                dirty_files: s.dirty_files,
                renames: s.renames,
                scan_stack: s.scan_stack.push(ScanFrameView { path: p, files: Map::empty() }),
                watch_dirs: s.watch_dirs,
            },
            emit: Option::None,
            ok: true,
        },
        FileEventView::ScanEnd(root, watched) => TrackerStep {
            state: apply_scan_end(s, root, watched),
            emit: Option::Some(FileTrackerEvent::Start),
            ok: true,
        },
    }
}

/// Folds a whole event stream over a state, ignoring emissions.
pub open spec fn apply_file_events(s: TrackerView, events: Seq<FileEventView>) -> TrackerView
    decreases events.len(),
{
    if events.len() == 0 {
        s
    } else {
        apply_file_events(apply_file_event(s, events.first()).state, events.drop_first())
    }
}

/// Whether applying the event changes any persisted table: the source
/// files, the dirty files, or the rename log.  Observations recorded
/// in a scan frame alone do not count; they are not persisted.
pub open spec fn step_changes_tables(s: TrackerView, e: FileEventView) -> bool {
    let s2 = apply_file_event(s, e).state;
    s2.source_files != s.source_files || s2.dirty_files != s.dirty_files || s2.renames
        != s.renames
}

/// The tracker over its tables: source files, dirty files, the rename
/// log, the stack of scans in progress, and the configured roots.
pub struct FileTracker {
    source_files: ByteMap<SourceFileInfo>,
    dirty_files: ByteMap<DirtyFileInfo>,
    rename_file_events: Vec<RenameFileEvent>,
    scan_stack: Vec<ScanContext>,
    watch_dirs: Vec<Vec<u8>>,
}

impl View for FileTracker {
    type V = TrackerView;

    closed spec fn view(&self) -> TrackerView {
        TrackerView {
            source_files: self.source_files@,
            dirty_files: self.dirty_files@,
            renames: self.rename_file_events@.map_values(|e: RenameFileEvent| e@),
            scan_stack: stack_views(self.scan_stack@),
            watch_dirs: path_views(self.watch_dirs@),
        }
    }
}

impl FileTracker {
    /// The tables' keys are unique, in every table and every frame.
    pub closed spec fn wf(&self) -> bool {
        &&& self.source_files.wf()
        &&& self.dirty_files.wf()
        &&& forall|i: int|
            0 <= i < self.scan_stack@.len() ==> #[trigger] self.scan_stack@[i].files.wf()
    }

    /// A tracker over the given watched roots, with empty tables.
    pub fn new(watch_dirs: Vec<Vec<u8>>) -> (r: FileTracker)
        ensures
            r.wf(),
            r@.source_files == Map::<Seq<u8>, SourceFileInfo>::empty(),
            r@.dirty_files == Map::<Seq<u8>, DirtyFileInfo>::empty(),
            r@.renames == Seq::<(Seq<u8>, Seq<u8>)>::empty(),
            r@.scan_stack == Seq::<ScanFrameView>::empty(),
            r@.watch_dirs == path_views(watch_dirs@),
    {
        let r = FileTracker {
            source_files: ByteMap::new(),
            dirty_files: ByteMap::new(),
            rename_file_events: Vec::new(),
            scan_stack: Vec::new(),
            watch_dirs,
        };
        proof {
            assert(r@.renames =~= Seq::<(Seq<u8>, Seq<u8>)>::empty());
            assert(r@.scan_stack =~= Seq::<ScanFrameView>::empty());
        }
        r
    }

    /// How many scans are in progress; a scan-end event is admitted
    /// only while this is positive.
    pub fn scan_depth(&self) -> (n: usize)
        ensures
            n == self@.scan_stack.len(),
    {
        self.scan_stack.len()
    }

    /// The configured watched roots.
    pub fn get_watch_dirs(&self) -> (r: &Vec<Vec<u8>>)
        ensures
            path_views(r@) == self@.watch_dirs,
    {
        &self.watch_dirs
    }

    /// The rename log, oldest first, with its dense sequence numbers.
    pub fn read_rename_events(&self) -> (r: Vec<(u64, RenameFileEvent)>)
        requires
            self@.renames.len() < 0xffffffffffffffff,
        ensures
            r@.len() == self@.renames.len(),
            forall|i: int|
                0 <= i < r@.len() ==> #[trigger] r@[i].0 == i + 1 && r@[i].1@ == self@.renames[i],
    {
        let mut out: Vec<(u64, RenameFileEvent)> = Vec::new();
        let mut i: usize = 0;
        while i < self.rename_file_events.len()
            invariant
                i <= self.rename_file_events@.len(),
                self.rename_file_events@.len() < 0xffffffffffffffff,
                out@.len() == i,
                forall|j: int|
                    0 <= j < i ==> #[trigger] out@[j].0 == j + 1 && out@[j].1@
                        == self.rename_file_events@[j]@,
            decreases self.rename_file_events@.len() - i,
        {
            let e = RenameFileEvent {
                src: clone_bytes(&self.rename_file_events[i].src),
                dst: clone_bytes(&self.rename_file_events[i].dst),
            };
            out.push(((i as u64) + 1, e));
            i = i + 1;
        }
        out
    }

    /// Empties the rename log; everything else stays.
    pub fn clear_rename_events(&mut self)
        ensures
            final(self)@.renames == Seq::<(Seq<u8>, Seq<u8>)>::empty(),
            final(self)@.source_files == old(self)@.source_files,
            final(self)@.dirty_files == old(self)@.dirty_files,
            final(self)@.scan_stack == old(self)@.scan_stack,
            final(self)@.watch_dirs == old(self)@.watch_dirs,
            final(self).wf() == old(self).wf(),
    {
        self.rename_file_events.clear();
        proof {
            assert(self@.renames =~= Seq::<(Seq<u8>, Seq<u8>)>::empty());
        }
    }

    /// The source table as persistable rows, one per path, in
    /// ascending byte order; a snapshot of these rows and the dirty
    /// rows and rename log restores the tracker after a restart.
    pub fn export_source_rows(&self) -> (r: Vec<(Vec<u8>, SourceFileInfo)>)
        requires
            self.wf(),
        ensures
            forall|i: int, j: int| 0 <= i < j < r@.len() ==> lex_lt(r@[i].0@, r@[j].0@),
            forall|i: int|
                0 <= i < r@.len() ==> #[trigger] self@.source_files.dom().contains(r@[i].0@)
                    && r@[i].1 == self@.source_files[r@[i].0@],
            forall|k: Seq<u8>|
                #[trigger] self@.source_files.dom().contains(k) ==> exists|i: int|
                    0 <= i < r@.len() && r@[i].0@ == k,
    {
        proof {
            self.source_files.lemma_key_seq();
        }
        let n = self.source_files.num_entries();
        let mut out: Vec<(Vec<u8>, SourceFileInfo)> = Vec::new();
        let mut i: usize = 0;
        while i < n
            invariant
                self.wf(),
                i <= n,
                n == self.source_files.key_seq().len(),
                out@.len() == i,
                forall|j: int|
                    0 <= j < i ==> #[trigger] out@[j].0@ == self.source_files.key_seq()[j]
                        && out@[j].1 == self@.source_files[out@[j].0@],
            decreases n - i,
        {
            let key = self.source_files.key_at(i);
            let info = *self.source_files.val_at(i);
            out.push((clone_bytes(key), info));
            i = i + 1;
        }
        proof {
            self.source_files.lemma_key_seq();
            assert forall|k: Seq<u8>|
                #[trigger] self@.source_files.dom().contains(k) implies exists|i0: int|
                0 <= i0 < out@.len() && out@[i0].0@ == k by {
                let i0 = choose|i0: int|
                    0 <= i0 < self.source_files.key_seq().len()
                        && self.source_files.key_seq()[i0] == k;
                assert(out@[i0].0@ == k);
            }
        }
        out
    }

    /// The dirty table as persistable rows, one per path, in
    /// ascending byte order.
    pub fn export_dirty_rows(&self) -> (r: Vec<(Vec<u8>, DirtyFileInfo)>)
        requires
            self.wf(),
        ensures
            forall|i: int, j: int| 0 <= i < j < r@.len() ==> lex_lt(r@[i].0@, r@[j].0@),
            forall|i: int|
                0 <= i < r@.len() ==> #[trigger] self@.dirty_files.dom().contains(r@[i].0@)
                    && r@[i].1 == self@.dirty_files[r@[i].0@],
            forall|k: Seq<u8>|
                #[trigger] self@.dirty_files.dom().contains(k) ==> exists|i: int|
                    0 <= i < r@.len() && r@[i].0@ == k,
    {
        proof {
            self.dirty_files.lemma_key_seq();
        }
        let n = self.dirty_files.num_entries();
        let mut out: Vec<(Vec<u8>, DirtyFileInfo)> = Vec::new();
        let mut i: usize = 0;
        while i < n
            invariant
                self.wf(),
                i <= n,
                n == self.dirty_files.key_seq().len(),
                out@.len() == i,
                forall|j: int|
                    0 <= j < i ==> #[trigger] out@[j].0@ == self.dirty_files.key_seq()[j]
                        && out@[j].1 == self@.dirty_files[out@[j].0@],
            decreases n - i,
        {
            let key = self.dirty_files.key_at(i);
            let info = *self.dirty_files.val_at(i);
            out.push((clone_bytes(key), info));
            i = i + 1;
        }
        proof {
            self.dirty_files.lemma_key_seq();
            assert forall|k: Seq<u8>|
                #[trigger] self@.dirty_files.dom().contains(k) implies exists|i0: int|
                0 <= i0 < out@.len() && out@[i0].0@ == k by {
                let i0 = choose|i0: int|
                    0 <= i0 < self.dirty_files.key_seq().len()
                        && self.dirty_files.key_seq()[i0] == k;
                assert(out@[i0].0@ == k);
            }
        }
        out
    }

    /// Rebuilds a tracker from persisted rows, as after a restart: the
    /// tables hold exactly the given rows and the rename log continues
    /// where it left off, so sequence numbers survive the restart.
    pub fn restore(
        watch_dirs: Vec<Vec<u8>>,
        sources: Vec<(Vec<u8>, SourceFileInfo)>,
        dirty: Vec<(Vec<u8>, DirtyFileInfo)>,
        renames: Vec<RenameFileEvent>,
    ) -> (r: FileTracker)
        ensures
            r.wf(),
            r@.source_files == rows_to_map(sources@),
            r@.dirty_files == rows_to_map(dirty@),
            r@.renames == renames@.map_values(|e: RenameFileEvent| e@),
            r@.scan_stack == Seq::<ScanFrameView>::empty(),
            r@.watch_dirs == path_views(watch_dirs@),
    {
        let mut source_files: ByteMap<SourceFileInfo> = ByteMap::new();
        let mut i: usize = 0;
        while i < sources.len()
            invariant
                i <= sources@.len(),
                source_files.wf(),
                source_files@ == rows_to_map(sources@.subrange(0, i as int)),
            decreases sources@.len() - i,
        {
            source_files.insert(clone_bytes(&sources[i].0), sources[i].1);
            proof {
                assert(sources@.subrange(0, i + 1).drop_last() =~= sources@.subrange(
                    0,
                    i as int,
                ));
                assert(sources@.subrange(0, i + 1).last() == sources@[i as int]);
            }
            i = i + 1;
        }
        proof {
            assert(sources@.subrange(0, sources@.len() as int) =~= sources@);
        }
        let mut dirty_files: ByteMap<DirtyFileInfo> = ByteMap::new();
        let mut j: usize = 0;
        while j < dirty.len()
            invariant
                j <= dirty@.len(),
                dirty_files.wf(),
                dirty_files@ == rows_to_map(dirty@.subrange(0, j as int)),
            decreases dirty@.len() - j,
        {
            dirty_files.insert(clone_bytes(&dirty[j].0), dirty[j].1);
            proof {
                assert(dirty@.subrange(0, j + 1).drop_last() =~= dirty@.subrange(0, j as int));
                assert(dirty@.subrange(0, j + 1).last() == dirty@[j as int]);
            }
            j = j + 1;
        }
        proof {
            assert(dirty@.subrange(0, dirty@.len() as int) =~= dirty@);
        }
        let r = FileTracker {
            source_files,
            dirty_files,
            rename_file_events: renames,
            scan_stack: Vec::new(),
            watch_dirs,
        };
        proof {
            assert(r@.scan_stack =~= Seq::<ScanFrameView>::empty());
        }
        r
    }

    /// Marks a path dirty by hand: with an observation the path is
    /// recorded as existing; without one, a deletion is recorded if the
    /// path was tracked.
    pub fn add_dirty_file(&mut self, path: &Vec<u8>, metadata: Option<FileMetadata>)
        requires
            old(self).wf(),
        ensures
            final(self).wf(),
            metadata matches Some(m) ==> final(self)@.source_files
                == old(self)@.source_files.insert(path@, info_of(m)) && final(self)@.dirty_files
                == old(self)@.dirty_files.insert(
                path@,
                DirtyFileInfo { state: FileStatus::Exists, source_info: info_of(m) },
            ),
            metadata is None ==> final(self)@.source_files == old(self)@.source_files
                && final(self)@.dirty_files == (if old(self)@.source_files.dom().contains(path@) {
                old(self)@.dirty_files.insert(
                    path@,
                    DirtyFileInfo {
                        state: FileStatus::Deleted,
                        source_info: old(self)@.source_files[path@],
                    },
                )
            } else {
                old(self)@.dirty_files
            }),
            final(self)@.renames == old(self)@.renames,
            final(self)@.scan_stack == old(self)@.scan_stack,
            final(self)@.watch_dirs == old(self)@.watch_dirs,
    {
        match metadata {
            Some(m) => {
                let info = SourceFileInfo {
                    last_modified: m.last_modified,
                    length: m.length,
                    file_type: m.file_type,
                };
                self.source_files.insert(clone_bytes(path), info);
                self.dirty_files.insert(
                    clone_bytes(path),
                    DirtyFileInfo { state: FileStatus::Exists, source_info: info },
                );
            },
            None => {
                let found = match self.source_files.get(path) {
                    Some(info) => Some(*info),
                    None => None,
                };
                match found {
                    Some(info) => {
                        self.dirty_files.insert(
                            clone_bytes(path),
                            DirtyFileInfo { state: FileStatus::Deleted, source_info: info },
                        );
                    },
                    None => {},
                }
            },
        }
    }

    /// Forgets a path's dirty entry; reports whether one was there.
    pub fn delete_dirty_file_state(&mut self, path: &Vec<u8>) -> (r: bool)
        requires
            old(self).wf(),
        ensures
            final(self).wf(),
            final(self)@.dirty_files == old(self)@.dirty_files.remove(path@),
            r == old(self)@.dirty_files.dom().contains(path@),
            final(self)@.source_files == old(self)@.source_files,
            final(self)@.renames == old(self)@.renames,
            final(self)@.scan_stack == old(self)@.scan_stack,
            final(self)@.watch_dirs == old(self)@.watch_dirs,
    {
        self.dirty_files.remove(path)
    }

    /// The tracked state of a path, if any.
    pub fn get_file_state(&self, path: &Vec<u8>) -> (r: Option<FileState>)
        requires
            self.wf(),
        ensures
            r is Some <==> self@.source_files.dom().contains(path@),
            r matches Some(st) ==> st@.path == path@ && st@.state == FileStatus::Exists
                && st@.last_modified == self@.source_files[path@].last_modified && st@.length
                == self@.source_files[path@].length,
    {
        match self.source_files.get(path) {
            Some(info) => Some(
                FileState {
                    path: clone_bytes(path),
                    state: FileStatus::Exists,
                    last_modified: info.last_modified,
                    length: info.length,
                },
            ),
            None => None,
        }
    }

    /// The dirty entry of a path, if any, with its source information.
    pub fn get_dirty_file_state(&self, path: &Vec<u8>) -> (r: Option<FileState>)
        requires
            self.wf(),
        ensures
            r is Some <==> self@.dirty_files.dom().contains(path@),
            r matches Some(st) ==> st@.path == path@ && st@.state
                == self@.dirty_files[path@].state && st@.last_modified
                == self@.dirty_files[path@].source_info.last_modified && st@.length
                == self@.dirty_files[path@].source_info.length,
    {
        match self.dirty_files.get(path) {
            Some(info) => Some(
                FileState {
                    path: clone_bytes(path),
                    state: info.state,
                    last_modified: info.source_info.last_modified,
                    length: info.source_info.length,
                },
            ),
            None => None,
        }
    }

    /// Every dirty path with its recorded state, one row per path, in
    /// ascending byte order of the paths.
    pub fn read_dirty_files(&self) -> (r: Vec<FileState>)
        requires
            self.wf(),
        ensures
            forall|i: int, j: int|
                0 <= i < j < r@.len() ==> lex_lt(r@[i]@.path, r@[j]@.path),
            forall|i: int, j: int| 0 <= i < j < r@.len() ==> r@[i]@.path != r@[j]@.path,
            forall|i: int|
                0 <= i < r@.len() ==> #[trigger] self@.dirty_files.dom().contains(r@[i]@.path)
                    && r@[i]@.state == self@.dirty_files[r@[i]@.path].state && r@[i]@.last_modified
                    == self@.dirty_files[r@[i]@.path].source_info.last_modified && r@[i]@.length
                    == self@.dirty_files[r@[i]@.path].source_info.length,
            forall|p: Seq<u8>|
                #[trigger] self@.dirty_files.dom().contains(p) ==> exists|i: int|
                    0 <= i < r@.len() && r@[i]@.path == p,
    {
        proof {
            self.dirty_files.lemma_key_seq();
        }
        let n = self.dirty_files.num_entries();
        let mut out: Vec<FileState> = Vec::new();
        let mut i: usize = 0;
        while i < n
            invariant
                self.wf(),
                i <= n,
                n == self.dirty_files.key_seq().len(),
                out@.len() == i,
                forall|j: int|
                    0 <= j < i ==> #[trigger] out@[j]@.path == self.dirty_files.key_seq()[j],
                forall|j: int|
                    0 <= j < i ==> #[trigger] out@[j]@.state == self@.dirty_files[out@[j]@.path].state
                        && out@[j]@.last_modified
                        == self@.dirty_files[out@[j]@.path].source_info.last_modified
                        && out@[j]@.length == self@.dirty_files[out@[j]@.path].source_info.length,
            decreases n - i,
        {
            let key = self.dirty_files.key_at(i);
            let info = *self.dirty_files.val_at(i);
            let st = FileState {
                path: clone_bytes(key),
                state: info.state,
                last_modified: info.source_info.last_modified,
                length: info.source_info.length,
            };
            out.push(st);
            i = i + 1;
        }
        proof {
            self.dirty_files.lemma_key_seq();
            assert forall|p: Seq<u8>|
                #[trigger] self@.dirty_files.dom().contains(p) implies exists|i0: int|
                0 <= i0 < out@.len() && out@[i0]@.path == p by {
                let i0 = choose|i0: int|
                    0 <= i0 < self.dirty_files.key_seq().len() && self.dirty_files.key_seq()[i0]
                        == p;
                assert(out@[i0]@.path == p);
            }
        }
        out
    }

    /// Every tracked path with its stored information, one row per
    /// path, in ascending byte order of the paths.
    pub fn read_all_files(&self) -> (r: Vec<FileState>)
        requires
            self.wf(),
        ensures
            forall|i: int, j: int|
                0 <= i < j < r@.len() ==> lex_lt(r@[i]@.path, r@[j]@.path),
            forall|i: int, j: int| 0 <= i < j < r@.len() ==> r@[i]@.path != r@[j]@.path,
            forall|i: int|
                0 <= i < r@.len() ==> #[trigger] self@.source_files.dom().contains(r@[i]@.path)
                    && r@[i]@.state == FileStatus::Exists && r@[i]@.last_modified
                    == self@.source_files[r@[i]@.path].last_modified && r@[i]@.length
                    == self@.source_files[r@[i]@.path].length,
            forall|p: Seq<u8>|
                #[trigger] self@.source_files.dom().contains(p) ==> exists|i: int|
                    0 <= i < r@.len() && r@[i]@.path == p,
    {
        proof {
            self.source_files.lemma_key_seq();
        }
        let n = self.source_files.num_entries();
        let mut out: Vec<FileState> = Vec::new();
        let mut i: usize = 0;
        while i < n
            invariant
                self.wf(),
                i <= n,
                n == self.source_files.key_seq().len(),
                out@.len() == i,
                forall|j: int|
                    0 <= j < i ==> #[trigger] out@[j]@.path == self.source_files.key_seq()[j],
                forall|j: int|
                    0 <= j < i ==> #[trigger] out@[j]@.state == FileStatus::Exists
                        && out@[j]@.last_modified
                        == self@.source_files[out@[j]@.path].last_modified && out@[j]@.length
                        == self@.source_files[out@[j]@.path].length,
            decreases n - i,
        {
            let key = self.source_files.key_at(i);
            let info = *self.source_files.val_at(i);
            let st = FileState {
                path: clone_bytes(key),
                state: FileStatus::Exists,
                last_modified: info.last_modified,
                length: info.length,
            };
            out.push(st);
            i = i + 1;
        }
        proof {
            self.source_files.lemma_key_seq();
            assert forall|p: Seq<u8>|
                #[trigger] self@.source_files.dom().contains(p) implies exists|i0: int|
                0 <= i0 < out@.len() && out@[i0]@.path == p by {
                let i0 = choose|i0: int|
                    0 <= i0 < self.source_files.key_seq().len() && self.source_files.key_seq()[i0]
                        == p;
                assert(out@[i0]@.path == p);
            }
        }
        out
    }
}


/// Appends the old sequence's element-set lemma used by the deletion
/// loops: pushing an element extends the element set by it.
proof fn lemma_push_to_set(s: Seq<Seq<u8>>, x: Seq<u8>)
    ensures
        s.push(x).to_set() == s.to_set().insert(x),
{
    assert forall|e: Seq<u8>| s.push(x).to_set().contains(e) implies s.to_set().insert(x).contains(
        e,
    ) by {
        let i = choose|i: int| 0 <= i < s.push(x).len() && s.push(x)[i] == e;
        if i < s.len() {
            assert(s[i] == e);
        }
    }
    assert forall|e: Seq<u8>| s.to_set().insert(x).contains(e) implies s.push(x).to_set().contains(
        e,
    ) by {
        if e == x {
            assert(s.push(x)[s.len() as int] == e);
        } else {
            let i = choose|i: int| 0 <= i < s.len() && s[i] == e;
            assert(s.push(x)[i] == e);
        }
    }
    assert(s.push(x).to_set() =~= s.to_set().insert(x));
}

/// Tests whether any of the directories is a prefix of the path.
fn under_any(dirs: &Vec<Vec<u8>>, p: &Vec<u8>) -> (r: bool)
    ensures
        r == under_some_dir(p@, path_views(dirs@)),
{
    let mut i: usize = 0;
    while i < dirs.len()
        invariant
            i <= dirs@.len(),
            forall|j: int| 0 <= j < i ==> !is_prefix_of(#[trigger] dirs@[j]@, p@),
        decreases dirs@.len() - i,
    {
        if starts_with(p, &dirs[i]) {
            proof {
                assert(path_views(dirs@)[i as int] == dirs@[i as int]@);
            }
            return true;
        }
        i = i + 1;
    }
    proof {
        if under_some_dir(p@, path_views(dirs@)) {
            let w = choose|w: int|
                0 <= w < path_views(dirs@).len() && is_prefix_of(path_views(dirs@)[w], p@);
            assert(path_views(dirs@)[w] == dirs@[w]@);
        }
    }
    false
}

impl FileTracker {
    /// Records an observation in the innermost scan frame, if a scan
    /// is on; the tables are untouched.
    fn record_observation(&mut self, p: &Vec<u8>, m: FileMetadata)
        requires
            old(self).wf(),
        ensures
            final(self).wf(),
            final(self)@.scan_stack == record_in_top(old(self)@.scan_stack, p@, m),
            final(self)@.source_files == old(self)@.source_files,
            final(self)@.dirty_files == old(self)@.dirty_files,
            final(self)@.renames == old(self)@.renames,
            final(self)@.watch_dirs == old(self)@.watch_dirs,
    {
        if self.scan_stack.len() > 0 {
            let mut frame = self.scan_stack.pop().unwrap();
            frame.files.insert(clone_bytes(p), m);
            self.scan_stack.push(frame);
            proof {
                assert(stack_views(self.scan_stack@) =~= record_in_top(
                    stack_views(old(self).scan_stack@),
                    p@,
                    m,
                ));
                assert forall|i: int|
                    0 <= i < self.scan_stack@.len() implies #[trigger] self.scan_stack@[i].files.wf() by {
                    if i < self.scan_stack@.len() - 1 {
                        assert(self.scan_stack@[i] == old(self).scan_stack@[i]);
                    }
                }
            }
        } else {
            proof {
                assert(stack_views(self.scan_stack@) =~= record_in_top(
                    stack_views(old(self).scan_stack@),
                    p@,
                    m,
                ));
            }
        }
    }

    /// Forgets a path in the innermost scan frame, if a scan is on.
    fn remove_observation(&mut self, p: &Vec<u8>)
        requires
            old(self).wf(),
        ensures
            final(self).wf(),
            final(self)@.scan_stack == remove_in_top(old(self)@.scan_stack, p@),
            final(self)@.source_files == old(self)@.source_files,
            final(self)@.dirty_files == old(self)@.dirty_files,
            final(self)@.renames == old(self)@.renames,
            final(self)@.watch_dirs == old(self)@.watch_dirs,
    {
        if self.scan_stack.len() > 0 {
            let mut frame = self.scan_stack.pop().unwrap();
            frame.files.remove(p);
            self.scan_stack.push(frame);
            proof {
                assert(stack_views(self.scan_stack@) =~= remove_in_top(
                    stack_views(old(self).scan_stack@),
                    p@,
                ));
                assert forall|i: int|
                    0 <= i < self.scan_stack@.len() implies #[trigger] self.scan_stack@[i].files.wf() by {
                    if i < self.scan_stack@.len() - 1 {
                        assert(self.scan_stack@[i] == old(self).scan_stack@[i]);
                    }
                }
            }
        } else {
            proof {
                assert(stack_views(self.scan_stack@) =~= remove_in_top(
                    stack_views(old(self).scan_stack@),
                    p@,
                ));
            }
        }
    }

    /// Appends to the rename log; the sequence number is the log's new
    /// length, so numbers stay dense and strictly monotonic.
    fn add_rename_event(&mut self, src: Vec<u8>, dst: Vec<u8>)
        requires
            old(self).wf(),
        ensures
            final(self).wf(),
            final(self)@.renames == old(self)@.renames.push((src@, dst@)),
            final(self)@.source_files == old(self)@.source_files,
            final(self)@.dirty_files == old(self)@.dirty_files,
            final(self)@.scan_stack == old(self)@.scan_stack,
            final(self)@.watch_dirs == old(self)@.watch_dirs,
    {
        let ghost s = src@;
        let ghost d = dst@;
        self.rename_file_events.push(RenameFileEvent { src, dst });
        proof {
            assert(self@.renames =~= old(self)@.renames.push((s, d)));
        }
    }

    /// The tracked paths under `root` that the scan did not observe.
    fn collect_scan_casualties(&self, root: &Vec<u8>, observed: &ByteMap<FileMetadata>) -> (r: Vec<
        Vec<u8>,
    >)
        requires
            self.wf(),
            observed.wf(),
        ensures
            forall|a: int, b: int|
                0 <= a < b < r@.len() ==> r@[a]@ != r@[b]@,
            forall|m: int|
                0 <= m < r@.len() ==> scan_removals(self@.source_files, root@, observed@).contains(
                    #[trigger] r@[m]@,
                ),
            forall|p: Seq<u8>|
                scan_removals(self@.source_files, root@, observed@).contains(p)
                    ==> #[trigger] path_views(r@).contains(p),
    {
        proof {
            self.source_files.lemma_key_seq();
        }
        let n = self.source_files.num_entries();
        let mut out: Vec<Vec<u8>> = Vec::new();
        let mut i: usize = 0;
        while i < n
            invariant
                self.wf(),
                observed.wf(),
                i <= n,
                n == self.source_files.key_seq().len(),
                forall|a: int, b: int| 0 <= a < b < out@.len() ==> out@[a]@ != out@[b]@,
                forall|m: int|
                    0 <= m < out@.len() ==> scan_removals(
                        self@.source_files,
                        root@,
                        observed@,
                    ).contains(#[trigger] out@[m]@),
                forall|j: int|
                    0 <= j < i && scan_removals(self@.source_files, root@, observed@).contains(
                        #[trigger] self.source_files.key_seq()[j],
                    ) ==> path_views(out@).contains(self.source_files.key_seq()[j]),
                forall|m: int|
                    0 <= m < out@.len() ==> exists|j: int|
                        0 <= j < i && #[trigger] out@[m]@ == self.source_files.key_seq()[j],
            decreases n - i,
        {
            let ghost pre = out@;
            let key = self.source_files.key_at(i);
            if starts_with(key, root) && !observed.contains_key(key) {
                out.push(clone_bytes(key));
                proof {
                    self.source_files.lemma_key_seq();
                    assert forall|a: int, b: int|
                        0 <= a < b < out@.len() implies out@[a]@ != out@[b]@ by {
                        if b == out@.len() - 1 {
                            let j = choose|j: int|
                                0 <= j < i && pre[a]@ == self.source_files.key_seq()[j];
                            assert(out@[b]@ == self.source_files.key_seq()[i as int]);
                        } else {
                            assert(out@[a] == pre[a] && out@[b] == pre[b]);
                        }
                    }
                    assert forall|j: int|
                        0 <= j < i + 1 && scan_removals(
                            self@.source_files,
                            root@,
                            observed@,
                        ).contains(#[trigger] self.source_files.key_seq()[j]) implies path_views(
                        out@,
                    ).contains(self.source_files.key_seq()[j]) by {
                        if j < i {
                            assert(path_views(pre).contains(self.source_files.key_seq()[j]));
                            let m = choose|m: int|
                                0 <= m < pre.len() && path_views(pre)[m]
                                    == self.source_files.key_seq()[j];
                            assert(path_views(out@)[m] == self.source_files.key_seq()[j]);
                        } else {
                            assert(path_views(out@)[out@.len() - 1]
                                == self.source_files.key_seq()[i as int]);
                        }
                    }
                }
            } else {
                proof {
                    self.source_files.lemma_key_seq();
                    let k = self.source_files.key_seq()[i as int];
                    assert(self@.source_files.dom().contains(k));
                    assert(!scan_removals(self@.source_files, root@, observed@).contains(k));
                }
            }
            i = i + 1;
        }
        proof {
            assert forall|p: Seq<u8>|
                scan_removals(self@.source_files, root@, observed@).contains(
                    p,
                ) implies #[trigger] path_views(out@).contains(p) by {
                self.source_files.lemma_key_seq();
                let j = choose|j: int|
                    0 <= j < self.source_files.key_seq().len() && self.source_files.key_seq()[j]
                        == p;
            }
        }
        out
    }

    /// The tracked paths that no watched root covers.
    fn collect_unwatched(&self, watched: &Vec<Vec<u8>>) -> (r: Vec<Vec<u8>>)
        requires
            self.wf(),
        ensures
            forall|a: int, b: int|
                0 <= a < b < r@.len() ==> r@[a]@ != r@[b]@,
            forall|m: int|
                0 <= m < r@.len() ==> stale_removals(
                    self@.source_files,
                    path_views(watched@),
                ).contains(#[trigger] r@[m]@),
            forall|p: Seq<u8>|
                stale_removals(self@.source_files, path_views(watched@)).contains(p)
                    ==> #[trigger] path_views(r@).contains(p),
    {
        proof {
            self.source_files.lemma_key_seq();
        }
        let n = self.source_files.num_entries();
        let mut out: Vec<Vec<u8>> = Vec::new();
        let mut i: usize = 0;
        while i < n
            invariant
                self.wf(),
                i <= n,
                n == self.source_files.key_seq().len(),
                forall|a: int, b: int| 0 <= a < b < out@.len() ==> out@[a]@ != out@[b]@,
                forall|m: int|
                    0 <= m < out@.len() ==> stale_removals(
                        self@.source_files,
                        path_views(watched@),
                    ).contains(#[trigger] out@[m]@),
                forall|j: int|
                    0 <= j < i && stale_removals(
                        self@.source_files,
                        path_views(watched@),
                    ).contains(#[trigger] self.source_files.key_seq()[j]) ==> path_views(
                        out@,
                    ).contains(self.source_files.key_seq()[j]),
                forall|m: int|
                    0 <= m < out@.len() ==> exists|j: int|
                        0 <= j < i && #[trigger] out@[m]@ == self.source_files.key_seq()[j],
            decreases n - i,
        {
            let ghost pre = out@;
            let key = self.source_files.key_at(i);
            if !under_any(watched, key) {
                out.push(clone_bytes(key));
                proof {
                    self.source_files.lemma_key_seq();
                    assert forall|a: int, b: int|
                        0 <= a < b < out@.len() implies out@[a]@ != out@[b]@ by {
                        if b == out@.len() - 1 {
                            let j = choose|j: int|
                                0 <= j < i && pre[a]@ == self.source_files.key_seq()[j];
                            assert(out@[b]@ == self.source_files.key_seq()[i as int]);
                        } else {
                            assert(out@[a] == pre[a] && out@[b] == pre[b]);
                        }
                    }
                    assert forall|j: int|
                        0 <= j < i + 1 && stale_removals(
                            self@.source_files,
                            path_views(watched@),
                        ).contains(#[trigger] self.source_files.key_seq()[j]) implies path_views(
                        out@,
                    ).contains(self.source_files.key_seq()[j]) by {
                        if j < i {
                            assert(path_views(pre).contains(self.source_files.key_seq()[j]));
                            let m = choose|m: int|
                                0 <= m < pre.len() && path_views(pre)[m]
                                    == self.source_files.key_seq()[j];
                            assert(path_views(out@)[m] == self.source_files.key_seq()[j]);
                        } else {
                            assert(path_views(out@)[out@.len() - 1]
                                == self.source_files.key_seq()[i as int]);
                        }
                    }
                }
            } else {
                proof {
                    self.source_files.lemma_key_seq();
                    let k = self.source_files.key_seq()[i as int];
                    assert(self@.source_files.dom().contains(k));
                    assert(!stale_removals(self@.source_files, path_views(watched@)).contains(k));
                }
            }
            i = i + 1;
        }
        proof {
            assert forall|p: Seq<u8>|
                stale_removals(self@.source_files, path_views(watched@)).contains(
                    p,
                ) implies #[trigger] path_views(out@).contains(p) by {
                self.source_files.lemma_key_seq();
                let j = choose|j: int|
                    0 <= j < self.source_files.key_seq().len() && self.source_files.key_seq()[j]
                        == p;
            }
        }
        out
    }

    /// Treats each listed path as removed: the dirty entry records the
    /// deletion with the last known information, the source row goes.
    fn apply_deletions(&mut self, keys: &Vec<Vec<u8>>)
        requires
            old(self).wf(),
            forall|a: int, b: int| 0 <= a < b < keys@.len() ==> keys@[a]@ != keys@[b]@,
            forall|m: int|
                0 <= m < keys@.len() ==> old(self)@.source_files.dom().contains(
                    #[trigger] keys@[m]@,
                ),
        ensures
            final(self).wf(),
            final(self)@.source_files == old(self)@.source_files.remove_keys(
                path_views(keys@).to_set(),
            ),
            final(self)@.dirty_files == mark_deleted(
                old(self)@.dirty_files,
                old(self)@.source_files,
                path_views(keys@).to_set(),
            ),
            final(self)@.renames == old(self)@.renames,
            final(self)@.scan_stack == old(self)@.scan_stack,
            final(self)@.watch_dirs == old(self)@.watch_dirs,
    {
        let ghost src0 = old(self)@.source_files;
        let ghost dirty0 = old(self)@.dirty_files;
        let mut idx: usize = 0;
        while idx < keys.len()
            invariant
                self.wf(),
                idx <= keys@.len(),
                forall|a: int, b: int| 0 <= a < b < keys@.len() ==> keys@[a]@ != keys@[b]@,
                forall|m: int|
                    0 <= m < keys@.len() ==> src0.dom().contains(#[trigger] keys@[m]@),
                self@.source_files == src0.remove_keys(
                    path_views(keys@).subrange(0, idx as int).to_set(),
                ),
                self@.dirty_files == mark_deleted(
                    dirty0,
                    src0,
                    path_views(keys@).subrange(0, idx as int).to_set(),
                ),
                self@.renames == old(self)@.renames,
                self@.scan_stack == old(self)@.scan_stack,
                self@.watch_dirs == old(self)@.watch_dirs,
            decreases keys@.len() - idx,
        {
            let ghost done = path_views(keys@).subrange(0, idx as int).to_set();
            let key = &keys[idx];
            proof {
                // this key is untouched so far: it is not among the removed
                if done.contains(key@) {
                    let m = choose|m: int|
                        0 <= m < idx && path_views(keys@).subrange(0, idx as int)[m] == key@;
                    assert(keys@[m]@ == keys@[idx as int]@);
                }
                assert(self@.source_files.dom().contains(key@));
            }
            let info = match self.source_files.get(key) {
                Some(v) => *v,
                None => vstd::pervasive::unreached(),
            };
            self.dirty_files.insert(
                clone_bytes(key),
                DirtyFileInfo { state: FileStatus::Deleted, source_info: info },
            );
            self.source_files.remove(key);
            proof {
                let done2 = path_views(keys@).subrange(0, idx + 1).to_set();
                assert(path_views(keys@).subrange(0, idx + 1) =~= path_views(keys@).subrange(
                    0,
                    idx as int,
                ).push(key@));
                lemma_push_to_set(path_views(keys@).subrange(0, idx as int), key@);
                assert(done2 == done.insert(key@));
                assert(info == src0[key@]);
                assert_maps_equal!(self@.source_files, src0.remove_keys(done2), x => {});
                assert_maps_equal!(self@.dirty_files, mark_deleted(dirty0, src0, done2), x => {});
            }
            idx = idx + 1;
        }
        proof {
            assert(path_views(keys@).subrange(0, keys@.len() as int) =~= path_views(keys@));
        }
    }

    /// Tells whether an event would change the persisted tables, so a
    /// caller can arm its change notification only for batches that
    /// wrote something.  The tables themselves are untouched.
    pub fn event_changes_tables(&self, evt: &FileEvent) -> (r: bool)
        requires
            self.wf(),
            evt@ matches FileEventView::ScanEnd(_root, _w) ==> self@.scan_stack.len() > 0,
        ensures
            r == step_changes_tables(self@, evt@),
    {
        let ghost s0 = self@;
        match evt {
            FileEvent::Updated(path, m) => {
                let changed = match self.source_files.get(path) {
                    Some(info) => !(info.last_modified == m.last_modified && info.length == m.length
                        && info.file_type == m.file_type),
                    None => true,
                };
                proof {
                    let s2 = apply_file_event(s0, evt@).state;
                    if changed {
                        // the fresh source row differs from whatever was stored
                        assert(s2.source_files != s0.source_files) by {
                            if s2.source_files == s0.source_files {
                                assert(s2.source_files.dom().contains(path@));
                                assert(s2.source_files[path@] == info_of(*m));
                            }
                        }
                    } else {
                        assert(s2.source_files == s0.source_files);
                    }
                }
                changed
            },
            FileEvent::Renamed(_src_p, _dst_p, _m) => {
                proof {
                    let s2 = apply_file_event(s0, evt@).state;
                    assert(s2.renames.len() == s0.renames.len() + 1);
                }
                true
            },
            FileEvent::Removed(path) => {
                let present = self.source_files.contains_key(path);
                proof {
                    let s2 = apply_file_event(s0, evt@).state;
                    if present {
                        assert(s2.source_files != s0.source_files) by {
                            assert(!s2.source_files.dom().contains(path@));
                        }
                    } else {
                        assert(s2.source_files =~= s0.source_files);
                        assert(s2.dirty_files == s0.dirty_files);
                    }
                }
                present
            },
            FileEvent::FileError(_fatal, _msg) => {
                false
            },
            FileEvent::ScanStart(_path) => {
                false
            },
            FileEvent::ScanEnd(root, watched) => {
                let depth = self.scan_stack.len();
                let frame = &self.scan_stack[depth - 1];
                proof {
                    assert(frame@ == s0.scan_stack.last());
                    assert(self.scan_stack@[depth - 1].files.wf());
                }
                let to_remove = self.collect_scan_casualties(root, &frame.files);
                let ghost rem1 = scan_removals(s0.source_files, root@, s0.scan_stack.last().files);
                proof {
                    assert forall|e: Seq<u8>| path_views(to_remove@).to_set().contains(
                        e,
                    ) implies rem1.contains(e) by {
                        let w = choose|w: int|
                            0 <= w < path_views(to_remove@).len() && path_views(to_remove@)[w]
                                == e;
                        assert(rem1.contains(to_remove@[w]@));
                    }
                    assert(path_views(to_remove@).to_set() =~= rem1);
                }
                if to_remove.len() > 0 {
                    proof {
                        let s2 = apply_file_event(s0, evt@).state;
                        let k = to_remove@[0]@;
                        assert(rem1.contains(k)) by {
                            assert(path_views(to_remove@)[0] == k);
                        }
                        assert(s0.source_files.dom().contains(k));
                        assert(s2.source_files != s0.source_files) by {
                            assert(!s2.source_files.dom().contains(k));
                        }
                    }
                    return true;
                }
                proof {
                    assert(rem1 =~= Set::<Seq<u8>>::empty()) by {
                        if exists|e: Seq<u8>| rem1.contains(e) {
                            let e = choose|e: Seq<u8>| rem1.contains(e);
                            assert(path_views(to_remove@).contains(e));
                        }
                    }
                    assert(s0.source_files.remove_keys(rem1) =~= s0.source_files);
                    assert(mark_deleted(s0.dirty_files, s0.source_files, rem1)
                        =~= s0.dirty_files);
                }
                if depth > 1 {
                    proof {
                        let s2 = apply_file_event(s0, evt@).state;
                        assert(s2.source_files == s0.source_files);
                        assert(s2.dirty_files == s0.dirty_files);
                    }
                    return false;
                }
                let stale = self.collect_unwatched(watched);
                let ghost rem2 = stale_removals(
                    s0.source_files.remove_keys(rem1),
                    path_views(watched@),
                );
                proof {
                    assert(s0.source_files.remove_keys(rem1) == s0.source_files);
                    assert(rem2 =~= stale_removals(s0.source_files, path_views(watched@)));
                    assert forall|e: Seq<u8>| path_views(stale@).to_set().contains(
                        e,
                    ) implies rem2.contains(e) by {
                        let w = choose|w: int|
                            0 <= w < path_views(stale@).len() && path_views(stale@)[w] == e;
                        assert(stale_removals(s0.source_files, path_views(watched@)).contains(
                            stale@[w]@,
                        ));
                    }
                    assert(path_views(stale@).to_set() =~= rem2);
                }
                if stale.len() > 0 {
                    proof {
                        let s2 = apply_file_event(s0, evt@).state;
                        let k = stale@[0]@;
                        assert(rem2.contains(k)) by {
                            assert(path_views(stale@)[0] == k);
                        }
                        assert(s0.source_files.dom().contains(k));
                        assert(s2.source_files != s0.source_files) by {
                            assert(!s2.source_files.dom().contains(k));
                        }
                    }
                    return true;
                }
                proof {
                    let s2 = apply_file_event(s0, evt@).state;
                    assert(rem2 =~= Set::<Seq<u8>>::empty()) by {
                        if exists|e: Seq<u8>| rem2.contains(e) {
                            let e = choose|e: Seq<u8>| rem2.contains(e);
                            assert(path_views(stale@).contains(e));
                        }
                    }
                    assert(s2.source_files =~= s0.source_files);
                    assert(s2.dirty_files =~= s0.dirty_files);
                }
                false
            },
        }
    }

    /// Applies one watcher event to the tables, transactionally in the
    /// model: the new state is exactly the transition function's.  The
    /// returned notification is `Start` after a finished scan; a fatal
    /// watcher failure is returned as an error and changes nothing,
    /// while a transient one is absorbed.
    pub fn handle_file_event(&mut self, evt: FileEvent) -> (r: Result<
        Option<FileTrackerEvent>,
        Error,
    >)
        requires
            old(self).wf(),
            evt@ matches FileEventView::ScanEnd(_root, _w) ==> old(self)@.scan_stack.len() > 0,
        ensures
            final(self).wf(),
            final(self)@ == apply_file_event(old(self)@, evt@).state,
            r is Ok <==> apply_file_event(old(self)@, evt@).ok,
            r matches Ok(em) ==> em == apply_file_event(old(self)@, evt@).emit,
            r matches Err(e) ==> e matches Error::Io(m) && (evt@ matches FileEventView::FileError(
                fatal,
                msg,
            ) && fatal && m@ == msg),
    {
        let ghost s0 = old(self)@;
        match evt {
            FileEvent::Updated(path, m) => {
                let changed = match self.source_files.get(&path) {
                    Some(info) => !(info.last_modified == m.last_modified && info.length == m.length
                        && info.file_type == m.file_type),
                    None => true,
                };
                proof {
                    assert(changed == (!s0.source_files.dom().contains(path@)
                        || s0.source_files[path@] != info_of(m)));
                }
                self.record_observation(&path, m);
                if changed {
                    let info = SourceFileInfo {
                        last_modified: m.last_modified,
                        length: m.length,
                        file_type: m.file_type,
                    };
                    self.source_files.insert(clone_bytes(&path), info);
                    self.dirty_files.insert(
                        path,
                        DirtyFileInfo { state: FileStatus::Exists, source_info: info },
                    );
                }
                Ok(None)
            },
            FileEvent::Renamed(src_p, dst_p, m) => {
                self.record_observation(&dst_p, m);
                self.remove_observation(&src_p);
                let info = SourceFileInfo {
                    last_modified: m.last_modified,
                    length: m.length,
                    file_type: m.file_type,
                };
                self.source_files.remove(&src_p);
                self.source_files.insert(clone_bytes(&dst_p), info);
                self.dirty_files.insert(
                    clone_bytes(&src_p),
                    DirtyFileInfo { state: FileStatus::Deleted, source_info: info },
                );
                self.dirty_files.insert(
                    clone_bytes(&dst_p),
                    DirtyFileInfo { state: FileStatus::Exists, source_info: info },
                );
                self.add_rename_event(src_p, dst_p);
                Ok(None)
            },
            FileEvent::Removed(path) => {
                self.remove_observation(&path);
                let found = match self.source_files.get(&path) {
                    Some(info) => Some(*info),
                    None => None,
                };
                match found {
                    Some(info) => {
                        self.dirty_files.insert(
                            clone_bytes(&path),
                            DirtyFileInfo { state: FileStatus::Deleted, source_info: info },
                        );
                    },
                    None => {},
                }
                self.source_files.remove(&path);
                Ok(None)
            },
            FileEvent::FileError(fatal, msg) => {
                if fatal {
                    Err(Error::Io(msg))
                } else {
                    Ok(None)
                }
            },
            FileEvent::ScanStart(path) => {
                self.scan_stack.push(ScanContext { path, files: ByteMap::new() });
                proof {
                    assert(stack_views(self.scan_stack@) =~= s0.scan_stack.push(
                        ScanFrameView {
                            path: self.scan_stack@.last().path@,
                            files: Map::empty(),
                        },
                    ));
                    assert forall|i: int|
                        0 <= i < self.scan_stack@.len() implies #[trigger] self.scan_stack@[i].files.wf() by {
                        if i < self.scan_stack@.len() - 1 {
                            assert(self.scan_stack@[i] == old(self).scan_stack@[i]);
                        }
                    }
                }
                Ok(None)
            },
            FileEvent::ScanEnd(root, watched) => {
                let frame = match self.scan_stack.pop() {
                    Some(f) => f,
                    None => vstd::pervasive::unreached(),
                };
                proof {
                    assert(stack_views(self.scan_stack@) =~= s0.scan_stack.drop_last());
                    assert(frame@ == s0.scan_stack.last());
                    assert forall|i: int|
                        0 <= i < self.scan_stack@.len() implies #[trigger] self.scan_stack@[i].files.wf() by {
                        assert(self.scan_stack@[i] == old(self).scan_stack@[i]);
                    }
                    assert(frame.files.wf()) by {
                        assert(old(self).scan_stack@[s0.scan_stack.len() - 1].files.wf());
                    }
                }
                let to_remove = self.collect_scan_casualties(&root, &frame.files);
                proof {
                    let rem1 = scan_removals(s0.source_files, root@, frame.files@);
                    assert forall|e: Seq<u8>| path_views(to_remove@).to_set().contains(
                        e,
                    ) implies rem1.contains(e) by {
                        let m = choose|m: int|
                            0 <= m < path_views(to_remove@).len() && path_views(to_remove@)[m] == e;
                        assert(rem1.contains(to_remove@[m]@));
                    }
                    assert(path_views(to_remove@).to_set() =~= rem1);
                }
                self.apply_deletions(&to_remove);
                if self.scan_stack.len() == 0 {
                    let ghost src1 = self@.source_files;
                    let stale = self.collect_unwatched(&watched);
                    proof {
                        let rem2 = stale_removals(src1, path_views(watched@));
                        assert forall|e: Seq<u8>| path_views(stale@).to_set().contains(
                            e,
                        ) implies rem2.contains(e) by {
                            let m = choose|m: int|
                                0 <= m < path_views(stale@).len() && path_views(stale@)[m] == e;
                            assert(rem2.contains(stale@[m]@));
                        }
                        assert(path_views(stale@).to_set() =~= rem2);
                    }
                    self.apply_deletions(&stale);
                }
                Ok(Some(FileTrackerEvent::Start))
            },
        }
    }
}


/// The table a list of persisted rows denotes: each row binds its
/// path, later rows winning on a repeated path.
pub open spec fn rows_to_map<V>(rows: Seq<(Vec<u8>, V)>) -> Map<Seq<u8>, V>
    decreases rows.len(),
{
    if rows.len() == 0 {
        Map::empty()
    } else {
        rows_to_map(rows.drop_last()).insert(rows.last().0@, rows.last().1)
    }
}

/// Whether everything the innermost scan has observed is tracked.
pub open spec fn top_frame_observed(s: TrackerView) -> bool {
    s.scan_stack.len() > 0 ==> forall|p: Seq<u8>|
        #[trigger] s.scan_stack.last().files.dom().contains(p) ==> s.source_files.dom().contains(
            p,
        )
}

/// Replaying one event stream from equal states yields equal states.
/// The transition is a function of the state view alone, so two fresh
/// replays of a recorded stream produce identical tables, dirty sets
/// and rename logs.
pub proof fn lemma_replay_deterministic(
    s1: TrackerView,
    s2: TrackerView,
    events: Seq<FileEventView>,
)
    requires
        s1 == s2,
    ensures
        apply_file_events(s1, events) == apply_file_events(s2, events),
{
}

/// Every event except the end of a scan keeps the innermost frame's
/// observations within the tracked set.
pub proof fn lemma_step_keeps_observation(s: TrackerView, e: FileEventView)
    requires
        top_frame_observed(s),
        !(e matches FileEventView::ScanEnd(_r, _w)),
    ensures
        top_frame_observed(apply_file_event(s, e).state),
{
    let s2 = apply_file_event(s, e).state;
    match e {
        FileEventView::Updated(p, m) => {
            if s.scan_stack.len() > 0 {
                let top2 = s2.scan_stack.last();
                assert(top2.files == s.scan_stack.last().files.insert(p, m));
                assert forall|q: Seq<u8>| #[trigger] top2.files.dom().contains(
                    q,
                ) implies s2.source_files.dom().contains(q) by {
                    if q != p {
                        assert(s.scan_stack.last().files.dom().contains(q));
                    }
                }
            }
        },
        FileEventView::Renamed(src_p, dst_p, m) => {
            if s.scan_stack.len() > 0 {
                let top2 = s2.scan_stack.last();
                assert(top2.files == s.scan_stack.last().files.insert(dst_p, m).remove(src_p));
                assert forall|q: Seq<u8>| #[trigger] top2.files.dom().contains(
                    q,
                ) implies s2.source_files.dom().contains(q) by {
                    if q != dst_p {
                        assert(s.scan_stack.last().files.dom().contains(q));
                    }
                }
            }
        },
        FileEventView::Removed(p) => {
            if s.scan_stack.len() > 0 {
                let top2 = s2.scan_stack.last();
                assert(top2.files == s.scan_stack.last().files.remove(p));
                assert forall|q: Seq<u8>| #[trigger] top2.files.dom().contains(
                    q,
                ) implies s2.source_files.dom().contains(q) by {
                    assert(s.scan_stack.last().files.dom().contains(q));
                }
            }
        },
        FileEventView::FileError(_f, _m) => {},
        FileEventView::ScanStart(_p) => {
            assert(s2.scan_stack.last().files =~= Map::<Seq<u8>, FileMetadata>::empty());
        },
        FileEventView::ScanEnd(_r, _w) => {},
    }
}

/// Parity with the disk after a full scan: when the outermost scan of
/// the only watched root ends, the tracked set is exactly what the
/// scan observed under that root.
pub proof fn lemma_scan_parity(s: TrackerView, root: Seq<u8>, watched: Seq<Seq<u8>>)
    requires
        s.scan_stack.len() == 1,
        watched == seq![root],
        top_frame_observed(s),
    ensures
        forall|p: Seq<u8>|
            #[trigger] apply_scan_end(s, root, watched).source_files.dom().contains(p) <==> (
            s.scan_stack.last().files.dom().contains(p) && is_prefix_of(root, p)),
{
    let frame = s.scan_stack.last();
    let s2 = apply_scan_end(s, root, watched);
    let rem1 = scan_removals(s.source_files, root, frame.files);
    let src1 = s.source_files.remove_keys(rem1);
    let rem2 = stale_removals(src1, watched);
    assert forall|p: Seq<u8>| #[trigger] s2.source_files.dom().contains(p) implies (
    frame.files.dom().contains(p) && is_prefix_of(root, p)) by {
        assert(src1.dom().contains(p) && !rem2.contains(p));
        assert(under_some_dir(p, watched));
        let i = choose|i: int| 0 <= i < watched.len() && is_prefix_of(watched[i], p);
        assert(watched[i] == root);
        assert(s.source_files.dom().contains(p) && !rem1.contains(p));
    }
    assert forall|p: Seq<u8>|
        frame.files.dom().contains(p) && is_prefix_of(root, p) implies #[trigger] s2
        .source_files.dom().contains(p) by {
        assert(s.source_files.dom().contains(p));
        assert(!rem1.contains(p));
        assert(src1.dom().contains(p));
        assert(is_prefix_of(watched[0], p));
        assert(under_some_dir(p, watched));
        assert(!rem2.contains(p));
    }
}

/// Parity with the disk after a full scan over any set of watched
/// roots: when the outermost scan of `root` ends, the tracked set
/// under `root` is exactly what the scan observed there (within the
/// watched roots), and every other path survives exactly when it was
/// tracked and still lies under some watched root.
pub proof fn lemma_scan_parity_multi(s: TrackerView, root: Seq<u8>, watched: Seq<Seq<u8>>)
    requires
        s.scan_stack.len() == 1,
        top_frame_observed(s),
    ensures
        forall|p: Seq<u8>|
            #[trigger] apply_scan_end(s, root, watched).source_files.dom().contains(p) <==> (
            if is_prefix_of(root, p) {
                s.scan_stack.last().files.dom().contains(p) && under_some_dir(p, watched)
            } else {
                s.source_files.dom().contains(p) && under_some_dir(p, watched)
            }),
{
    let frame = s.scan_stack.last();
    let s2 = apply_scan_end(s, root, watched);
    let rem1 = scan_removals(s.source_files, root, frame.files);
    let src1 = s.source_files.remove_keys(rem1);
    let rem2 = stale_removals(src1, watched);
    assert forall|p: Seq<u8>| #[trigger] s2.source_files.dom().contains(p) implies (
    if is_prefix_of(root, p) {
        frame.files.dom().contains(p) && under_some_dir(p, watched)
    } else {
        s.source_files.dom().contains(p) && under_some_dir(p, watched)
    }) by {
        assert(src1.dom().contains(p) && !rem2.contains(p));
        assert(under_some_dir(p, watched));
        assert(s.source_files.dom().contains(p) && !rem1.contains(p));
    }
    assert forall|p: Seq<u8>|
        (if is_prefix_of(root, p) {
            frame.files.dom().contains(p) && under_some_dir(p, watched)
        } else {
            s.source_files.dom().contains(p) && under_some_dir(p, watched)
        }) implies #[trigger] s2.source_files.dom().contains(p) by {
        if is_prefix_of(root, p) {
            assert(s.source_files.dom().contains(p));
        }
        assert(!rem1.contains(p));
        assert(src1.dom().contains(p));
        assert(!rem2.contains(p));
    }
}

} // verus!
