//! The breadth-first file-name search as a state machine.
//!
//! The caller reads the file system and feeds each observation in; the
//! state decides what to count, what to queue, which files match, when to
//! report progress and when a batch of results is due. Directories are
//! carried as values of the caller's type `D` and never looked into.
use vstd::prelude::*;
use std::collections::VecDeque;
use crate::entry::{file_entry, is_entry_for, reported_file_name, reported_name, FileEntry};
use crate::query::{matches_name, name_matches};
use crate::text::string_views;

verus! {

/// Minimum distance, in scanned entries, between two progress reports.
pub const PROGRESS_INTERVAL: usize = 250;

/// Whether a traversal that has scanned `scanned_count` entries and last
/// reported progress at `last_progress` should report progress again.
pub fn should_emit_progress(scanned_count: usize, last_progress: usize) -> (emit: bool)
    ensures
        emit <==> scanned_count >= last_progress + PROGRESS_INTERVAL,
{
    scanned_count.saturating_sub(last_progress) >= PROGRESS_INTERVAL
}

/// Size and modification time of a file, as its metadata reports them.
pub struct FileMetadata {
    pub size_bytes: u64,
    /// Milliseconds since the Unix epoch, where the platform reports it.
    pub modified_at: Option<u128>,
}

/// What the file system reports of one directory entry.
pub enum EntryKind<D> {
    /// The entry's type could not be read.
    UnknownType,
    /// A symbolic link; never followed.
    Symlink,
    /// A directory, to be searched later.
    Directory(D),
    /// A regular file, with the bytes of its path.
    File { path: Vec<u8> },
    /// Anything else.
    Other,
}

/// What the traversal made of an entry.
pub enum EntryDecision {
    /// Counted as skipped.
    Skipped,
    /// A directory, queued for searching.
    Queued,
    /// Not a result.
    Ignored,
    /// A matching file; its metadata is needed next.
    NeedsMetadata,
}

/// What the traversal made of a matching file's metadata.
pub struct FileStep {
    /// A full batch of results to report, if one is due.
    pub batch: Option<Vec<FileEntry>>,
    /// Whether the result limit is reached and the search is over.
    pub stop: bool,
}

/// The counts that a finished traversal reports.
pub struct TraversalOutcome {
    pub scanned_count: usize,
    pub result_count: usize,
    pub skipped_count: usize,
    pub cancelled: bool,
}

/// The state of one search.
pub struct Traversal<D> {
    queue: VecDeque<D>,
    batch: Vec<FileEntry>,
    tokens: Vec<String>,
    batch_size: usize,
    max_results: usize,
    scanned_count: usize,
    result_count: usize,
    skipped_count: usize,
    last_progress: usize,
    pending: Option<Vec<u8>>,
    reports: Ghost<Seq<usize>>,
    entries: Ghost<Seq<FileEntry>>,
    paths: Ghost<Seq<Seq<u8>>>,
    delivered: Ghost<nat>,
    root: Ghost<D>,
    log: Ghost<Seq<WalkEvent<D>>>,
    files: Ghost<Seq<Seq<u8>>>,
    origin: Ghost<Seq<int>>,
    handed: Ghost<Seq<Seq<FileEntry>>>,
}

/// What a search observes of the tree it walks, in the order it observes it.
pub enum WalkEvent<D> {
    /// A directory was taken from the queue to be searched.
    Taken,
    /// A readable entry was seen.
    Seen,
    /// A directory was found and queued.
    Found(D),
}

/// The walk that `log` describes from `root`: the directories found, in the
/// order they were found and starting with `root`; how many of them were
/// taken; and how many entries were seen.
pub open spec fn walk_of<D>(root: D, log: Seq<WalkEvent<D>>) -> (Seq<D>, nat, nat)
    decreases log.len(),
{
    if log.len() == 0 {
        (seq![root], 0, 0)
    } else {
        let w = walk_of(root, log.drop_last());
        match log.last() {
            WalkEvent::Taken => (w.0, w.1 + 1, w.2),
            WalkEvent::Seen => (w.0, w.1, w.2 + 1),
            WalkEvent::Found(d) => (w.0.push(d), w.1, w.2),
        }
    }
}

proof fn lemma_walk_push<D>(root: D, log: Seq<WalkEvent<D>>, e: WalkEvent<D>)
    ensures
        walk_of(root, log.push(e)) == (match e {
            WalkEvent::Taken => (walk_of(root, log).0, walk_of(root, log).1 + 1, walk_of(root, log).2),
            WalkEvent::Seen => (walk_of(root, log).0, walk_of(root, log).1, walk_of(root, log).2 + 1),
            WalkEvent::Found(d) => (walk_of(root, log).0.push(d), walk_of(root, log).1, walk_of(root, log).2),
        }),
{
    assert(log.push(e).drop_last() =~= log);
}

proof fn lemma_walk_starts_at_root<D>(root: D, log: Seq<WalkEvent<D>>)
    ensures
        walk_of(root, log).0.len() >= 1,
        walk_of(root, log).0[0] == root,
    decreases log.len(),
{
    if log.len() > 0 {
        lemma_walk_starts_at_root(root, log.drop_last());
    }
}

/// The progress reports due after `scanned` entries: one at every multiple
/// of `PROGRESS_INTERVAL`.
pub open spec fn progress_marks(scanned: nat) -> Seq<usize> {
    Seq::new(scanned / PROGRESS_INTERVAL as nat, |i: int| ((i + 1) * PROGRESS_INTERVAL) as usize)
}

/// Whether each progress report exceeds the one before by at least
/// `PROGRESS_INTERVAL`.
pub open spec fn reports_spaced(reports: Seq<usize>) -> bool {
    forall|i: int| 0 < i < reports.len() ==> reports[i - 1] + PROGRESS_INTERVAL <= #[trigger] reports[i]
}

impl<D> Traversal<D> {
    /// The directories still to be searched, in order.
    pub closed spec fn queue(&self) -> Seq<D> {
        self.queue@
    }

    /// The query tokens that file names are matched against.
    pub closed spec fn tokens(&self) -> Seq<Seq<char>> {
        string_views(self.tokens@)
    }

    /// The requested batch size.
    pub closed spec fn batch_size(&self) -> usize {
        self.batch_size
    }

    /// The requested result limit.
    pub closed spec fn max_results(&self) -> usize {
        self.max_results
    }

    /// The number of results after which a batch is reported.
    pub open spec fn batch_threshold(&self) -> nat {
        if self.batch_size() == 0 {
            1
        } else {
            self.batch_size() as nat
        }
    }

    /// The number of results after which the search stops.
    pub open spec fn result_limit(&self) -> nat {
        if self.max_results() == 0 {
            1
        } else {
            self.max_results() as nat
        }
    }

    /// Entries scanned so far.
    pub closed spec fn scanned(&self) -> nat {
        self.scanned_count as nat
    }

    /// Entries, directories and files skipped because they could not be read
    /// or are symbolic links.
    pub closed spec fn skipped(&self) -> nat {
        self.skipped_count as nat
    }

    /// The scan count at the last progress report, 0 before the first.
    pub closed spec fn last_progress(&self) -> nat {
        self.last_progress as nat
    }

    /// Every progress report made so far, in order.
    pub closed spec fn reports(&self) -> Seq<usize> {
        self.reports@
    }

    /// Every result so far, in order.
    pub closed spec fn results(&self) -> Seq<FileEntry> {
        self.entries@
    }

    /// The paths of the results, in order.
    pub closed spec fn result_paths(&self) -> Seq<Seq<u8>> {
        self.paths@
    }

    /// The directory the search started from.
    pub closed spec fn walk_root(&self) -> D {
        self.root@
    }

    /// What the search observed of the tree so far, in order.
    pub closed spec fn walk_log(&self) -> Seq<WalkEvent<D>> {
        self.log@
    }

    /// The directories found so far, in the order they were found, starting
    /// with the root.
    pub open spec fn found_directories(&self) -> Seq<D> {
        walk_of(self.walk_root(), self.walk_log()).0
    }

    /// How many directories were taken from the queue so far.
    pub open spec fn directories_taken(&self) -> nat {
        walk_of(self.walk_root(), self.walk_log()).1
    }

    /// The paths of the regular files classified so far, in order.
    pub closed spec fn classified_files(&self) -> Seq<Seq<u8>> {
        self.files@
    }

    /// The batches handed out so far, in order.
    pub closed spec fn handed_batches(&self) -> Seq<Seq<FileEntry>> {
        self.handed@
    }

    /// How many results were handed out in batches.
    pub closed spec fn delivered(&self) -> nat {
        self.delivered@
    }

    /// The results not yet handed out.
    pub closed spec fn pending_batch(&self) -> Seq<FileEntry> {
        self.batch@
    }

    /// The path of the matching file whose metadata is awaited, if any.
    pub closed spec fn pending_file(&self) -> Option<Seq<u8>> {
        match self.pending {
            Some(p) => Some(p@),
            None => None,
        }
    }

    /// Whether the result limit is reached.
    pub open spec fn limit_reached(&self) -> bool {
        self.results().len() >= self.result_limit()
    }

    /// The state's invariant.
    pub closed spec fn wf(&self) -> bool {
        &&& self.last_progress <= self.scanned_count
        &&& reports_spaced(self.reports@)
        &&& self.reports@.len() > 0 ==> self.reports@.last() == self.last_progress
        &&& self.reports@.len() == 0 ==> self.last_progress == 0
        &&& self.result_count == self.entries@.len()
        &&& self.paths@.len() == self.entries@.len()
        &&& self.reports@ == progress_marks(self.scanned_count as nat)
        &&& self.last_progress == (self.scanned_count / PROGRESS_INTERVAL) * PROGRESS_INTERVAL
        &&& self.entries@.len() == self.delivered@ + self.batch@.len()
        &&& self.batch@ == self.entries@.subrange(self.delivered@ as int, self.entries@.len() as int)
        &&& self.batch@.len() < self.batch_threshold()
        &&& self.entries@.len() <= self.result_limit()
        &&& forall|i: int|
            0 <= i < self.paths@.len() ==> name_matches(
                reported_name(#[trigger] self.paths@[i]),
                string_views(self.tokens@),
            )
        &&& forall|i: int|
            0 <= i < self.entries@.len() ==> is_entry_for(
                #[trigger] self.entries@[i],
                self.paths@[i],
                self.entries@[i].size_bytes,
                self.entries@[i].modified_at,
            )
        &&& self.pending matches Some(p) ==> name_matches(reported_name(p@), string_views(self.tokens@))
        &&& self.scanned_count == walk_of(self.root@, self.log@).2
        &&& walk_of(self.root@, self.log@).1 + self.queue@.len() <= walk_of(self.root@, self.log@).0.len()
        &&& self.entries@.len() < self.result_limit() ==> self.queue@ == walk_of(self.root@, self.log@).0.skip(
            walk_of(self.root@, self.log@).1 as int,
        )
        &&& self.handed@.flatten_alt() == self.entries@.take(self.delivered@ as int)
        &&& self.origin@.len() == self.paths@.len()
        &&& forall|i: int|
            0 <= i < self.origin@.len() ==> 0 <= #[trigger] self.origin@[i] < self.files@.len()
                && self.paths@[i] == self.files@[self.origin@[i]]
        &&& forall|i: int, j: int|
            0 <= i < j < self.origin@.len() ==> #[trigger] self.origin@[i] < #[trigger] self.origin@[j]
        &&& self.pending matches Some(p) ==> {
            &&& self.files@.len() > 0
            &&& self.files@.last() == p@
            &&& forall|i: int| 0 <= i < self.origin@.len() ==> #[trigger] self.origin@[i] < self.files@.len() - 1
        }
    }

    /// A search of `root` for file names that match every token, reporting
    /// results in batches of `batch_size` and stopping after `max_results`.
    pub fn new(root: D, tokens: Vec<String>, batch_size: usize, max_results: usize) -> (t: Self)
        ensures
            t.wf(),
            t.queue() == seq![root],
            t.tokens() == string_views(tokens@),
            t.batch_size() == batch_size,
            t.max_results() == max_results,
            t.scanned() == 0,
            t.skipped() == 0,
            t.last_progress() == 0,
            t.reports() == Seq::<usize>::empty(),
            t.results() == Seq::<FileEntry>::empty(),
            t.result_paths() == Seq::<Seq<u8>>::empty(),
            t.delivered() == 0,
            t.pending_file() is None,
            t.walk_root() == root,
            t.walk_log() == Seq::<WalkEvent<D>>::empty(),
            t.classified_files() == Seq::<Seq<u8>>::empty(),
            t.handed_batches() == Seq::<Seq<FileEntry>>::empty(),
    {
        let ghost g = root;
        let mut queue = VecDeque::new();
        queue.push_back(root);
        let t = Traversal {
            queue,
            batch: Vec::new(),
            tokens,
            batch_size,
            max_results,
            scanned_count: 0,
            result_count: 0,
            skipped_count: 0,
            last_progress: 0,
            pending: None,
            reports: Ghost(Seq::empty()),
            entries: Ghost(Seq::empty()),
            paths: Ghost(Seq::empty()),
            delivered: Ghost(0),
            root: Ghost(g),
            log: Ghost(Seq::empty()),
            files: Ghost(Seq::empty()),
            origin: Ghost(Seq::empty()),
            handed: Ghost(Seq::empty()),
        };
        assert(t.entries@.take(0) =~= Seq::<FileEntry>::empty());
        assert(walk_of(g, Seq::<WalkEvent<D>>::empty()).0.skip(0) =~= seq![g]);
        assert(t.batch@ =~= t.entries@.subrange(0, 0));
        assert(progress_marks(0) =~= Seq::<usize>::empty());
        t
    }

    /// Entries scanned so far.
    pub fn scanned_count(&self) -> (n: usize)
        ensures
            n == self.scanned(),
    {
        self.scanned_count
    }

    /// Results so far.
    pub fn result_count(&self) -> (n: usize)
        requires
            self.wf(),
        ensures
            n == self.results().len(),
    {
        self.result_count
    }

    /// Entries skipped so far.
    pub fn skipped_count(&self) -> (n: usize)
        ensures
            n == self.skipped(),
    {
        self.skipped_count
    }

    /// Takes the next directory to search, in the order they were found.
    pub fn next_directory(&mut self) -> (d: Option<D>)
        requires
            old(self).wf(),
        ensures
            final(self).wf(),
            match d {
                Some(x) => old(self).queue().len() > 0 && x == old(self).queue()[0]
                    && final(self).queue() == old(self).queue().drop_first(),
                None => old(self).queue().len() == 0 && final(self).queue() == old(self).queue(),
            },
            final(self).same_except_queue(old(self)),
            final(self).walk_root() == old(self).walk_root(),
            final(self).walk_log() == (if d is Some {
                old(self).walk_log().push(WalkEvent::Taken)
            } else {
                old(self).walk_log()
            }),
            final(self).classified_files() == old(self).classified_files(),
    {
        let d = self.queue.pop_front();
        proof {
            if d is Some {
                assert(self.queue@ =~= old(self).queue@.drop_first());
                let w = walk_of(self.root@, self.log@);
                lemma_walk_push(self.root@, self.log@, WalkEvent::Taken);
                if self.entries@.len() < self.result_limit() {
                    assert(w.0.skip(w.1 as int).drop_first() =~= w.0.skip((w.1 + 1) as int));
                }
                self.log@ = self.log@.push(WalkEvent::Taken);
            }
        }
        d
    }

    /// Everything but the queue is as in `other`.
    pub open spec fn same_except_queue(&self, other: &Self) -> bool {
        &&& self.tokens() == other.tokens()
        &&& self.batch_size() == other.batch_size()
        &&& self.max_results() == other.max_results()
        &&& self.scanned() == other.scanned()
        &&& self.skipped() == other.skipped()
        &&& self.last_progress() == other.last_progress()
        &&& self.reports() == other.reports()
        &&& self.results() == other.results()
        &&& self.result_paths() == other.result_paths()
        &&& self.delivered() == other.delivered()
        &&& self.pending_batch() == other.pending_batch()
        &&& self.pending_file() == other.pending_file()
        &&& self.handed_batches() == other.handed_batches()
    }

    /// Everything but the queue and the skip count is as in `other`.
    pub open spec fn same_except_queue_and_skips(&self, other: &Self) -> bool {
        &&& self.tokens() == other.tokens()
        &&& self.batch_size() == other.batch_size()
        &&& self.max_results() == other.max_results()
        &&& self.scanned() == other.scanned()
        &&& self.last_progress() == other.last_progress()
        &&& self.reports() == other.reports()
        &&& self.results() == other.results()
        &&& self.result_paths() == other.result_paths()
        &&& self.delivered() == other.delivered()
        &&& self.pending_batch() == other.pending_batch()
        &&& self.handed_batches() == other.handed_batches()
    }

    /// Counts a directory or an entry that could not be read.
    pub fn record_unreadable(&mut self)
        requires
            old(self).wf(),
            old(self).skipped() < usize::MAX,
        ensures
            final(self).wf(),
            final(self).skipped() == old(self).skipped() + 1,
            final(self).same_except_queue_and_skips(old(self)),
            final(self).queue() == old(self).queue(),
            final(self).pending_file() == old(self).pending_file(),
            final(self).walk_root() == old(self).walk_root(),
            final(self).walk_log() == old(self).walk_log(),
            final(self).classified_files() == old(self).classified_files(),
    {
        self.skipped_count = self.skipped_count + 1;
    }

    /// Counts a readable entry, and reports progress when at least
    /// `PROGRESS_INTERVAL` entries were scanned since the last report.
    pub fn entry_seen(&mut self) -> (progress: Option<usize>)
        requires
            old(self).wf(),
            old(self).scanned() < usize::MAX,
        ensures
            final(self).wf(),
            final(self).scanned() == old(self).scanned() + 1,
            progress is Some <==> final(self).scanned() % (PROGRESS_INTERVAL as nat) == 0,
            match progress {
                Some(p) => {
                    &&& p == final(self).scanned()
                    &&& p >= old(self).last_progress() + PROGRESS_INTERVAL
                    &&& final(self).last_progress() == p
                    &&& final(self).reports() == old(self).reports().push(p)
                },
                None => {
                    &&& final(self).scanned() < old(self).last_progress() + PROGRESS_INTERVAL
                    &&& final(self).last_progress() == old(self).last_progress()
                    &&& final(self).reports() == old(self).reports()
                },
            },
            final(self).queue() == old(self).queue(),
            final(self).tokens() == old(self).tokens(),
            final(self).batch_size() == old(self).batch_size(),
            final(self).max_results() == old(self).max_results(),
            final(self).skipped() == old(self).skipped(),
            final(self).results() == old(self).results(),
            final(self).result_paths() == old(self).result_paths(),
            final(self).delivered() == old(self).delivered(),
            final(self).pending_batch() == old(self).pending_batch(),
            final(self).pending_file() == old(self).pending_file(),
            final(self).walk_root() == old(self).walk_root(),
            final(self).walk_log() == old(self).walk_log().push(WalkEvent::Seen),
            final(self).handed_batches() == old(self).handed_batches(),
            final(self).classified_files() == old(self).classified_files(),
    {
        proof {
            lemma_progress_step(self.scanned_count as nat);
            lemma_walk_push(self.root@, self.log@, WalkEvent::Seen);
            self.log@ = self.log@.push(WalkEvent::Seen);
        }
        self.scanned_count = self.scanned_count + 1;
        if should_emit_progress(self.scanned_count, self.last_progress) {
            self.last_progress = self.scanned_count;
            self.reports = Ghost(self.reports@.push(self.scanned_count));
            Some(self.scanned_count)
        } else {
            None
        }
    }

    /// Decides what to do with a readable entry: skips unknown types and
    /// symbolic links, queues directories, and asks for the metadata of a
    /// regular file whose name matches every token.
    pub fn classify_entry(&mut self, kind: EntryKind<D>) -> (decision: EntryDecision)
        requires
            old(self).wf(),
            old(self).pending_file() is None,
            old(self).skipped() < usize::MAX,
        ensures
            final(self).wf(),
            final(self).tokens() == old(self).tokens(),
            final(self).batch_size() == old(self).batch_size(),
            final(self).max_results() == old(self).max_results(),
            final(self).scanned() == old(self).scanned(),
            final(self).last_progress() == old(self).last_progress(),
            final(self).reports() == old(self).reports(),
            final(self).results() == old(self).results(),
            final(self).result_paths() == old(self).result_paths(),
            final(self).delivered() == old(self).delivered(),
            final(self).pending_batch() == old(self).pending_batch(),
            final(self).walk_root() == old(self).walk_root(),
            final(self).walk_log() == (match kind {
                EntryKind::Directory(d) => old(self).walk_log().push(WalkEvent::Found(d)),
                _ => old(self).walk_log(),
            }),
            final(self).handed_batches() == old(self).handed_batches(),
            final(self).classified_files() == (match kind {
                EntryKind::File { path } => old(self).classified_files().push(path@),
                _ => old(self).classified_files(),
            }),
            match kind {
                EntryKind::UnknownType | EntryKind::Symlink => {
                    &&& decision is Skipped
                    &&& final(self).skipped() == old(self).skipped() + 1
                    &&& final(self).queue() == old(self).queue()
                    &&& final(self).pending_file() is None
                },
                EntryKind::Directory(d) => {
                    &&& decision is Queued
                    &&& final(self).skipped() == old(self).skipped()
                    &&& final(self).queue() == old(self).queue().push(d)
                    &&& final(self).pending_file() is None
                },
                EntryKind::File { path } => {
                    &&& final(self).skipped() == old(self).skipped()
                    &&& final(self).queue() == old(self).queue()
                    &&& if name_matches(reported_name(path@), old(self).tokens()) {
                        &&& decision is NeedsMetadata
                        &&& final(self).pending_file() == Some(path@)
                    } else {
                        &&& decision is Ignored
                        &&& final(self).pending_file() is None
                    }
                },
                EntryKind::Other => {
                    &&& decision is Ignored
                    &&& final(self).skipped() == old(self).skipped()
                    &&& final(self).queue() == old(self).queue()
                    &&& final(self).pending_file() is None
                },
            },
    {
        match kind {
            EntryKind::UnknownType => {
                self.skipped_count = self.skipped_count + 1;
                EntryDecision::Skipped
            },
            EntryKind::Symlink => {
                self.skipped_count = self.skipped_count + 1;
                EntryDecision::Skipped
            },
            EntryKind::Directory(d) => {
                proof {
                    let w = walk_of(self.root@, self.log@);
                    lemma_walk_push(self.root@, self.log@, WalkEvent::Found(d));
                    if self.entries@.len() < self.result_limit() {
                        assert(w.0.push(d).skip(w.1 as int) =~= w.0.skip(w.1 as int).push(d));
                    }
                    self.log@ = self.log@.push(WalkEvent::Found(d));
                }
                self.queue.push_back(d);
                EntryDecision::Queued
            },
            EntryKind::File { path } => {
                proof {
                    self.files@ = self.files@.push(path@);
                }
                let name = reported_file_name(path.as_slice());
                if matches_name(name.as_str(), self.tokens.as_slice()) {
                    self.pending = Some(path);
                    EntryDecision::NeedsMetadata
                } else {
                    EntryDecision::Ignored
                }
            },
            EntryKind::Other => EntryDecision::Ignored,
        }
    }

    /// Takes the metadata of the awaited file: `None` when it could not be
    /// read, which counts as skipped. Otherwise the file becomes a result;
    /// a full batch is handed out, and reaching the result limit clears the
    /// queue and ends the search.
    pub fn metadata_read(&mut self, metadata: Option<FileMetadata>) -> (step: FileStep)
        requires
            old(self).wf(),
            old(self).pending_file() is Some,
            !old(self).limit_reached(),
            old(self).skipped() < usize::MAX,
        ensures
            final(self).wf(),
            final(self).pending_file() is None,
            final(self).tokens() == old(self).tokens(),
            final(self).batch_size() == old(self).batch_size(),
            final(self).max_results() == old(self).max_results(),
            final(self).scanned() == old(self).scanned(),
            final(self).last_progress() == old(self).last_progress(),
            final(self).reports() == old(self).reports(),
            final(self).walk_root() == old(self).walk_root(),
            final(self).walk_log() == old(self).walk_log(),
            final(self).classified_files() == old(self).classified_files(),
            match metadata {
                None => {
                    &&& step.batch is None
                    &&& !step.stop
                    &&& final(self).skipped() == old(self).skipped() + 1
                    &&& final(self).queue() == old(self).queue()
                    &&& final(self).results() == old(self).results()
                    &&& final(self).result_paths() == old(self).result_paths()
                    &&& final(self).delivered() == old(self).delivered()
                    &&& final(self).pending_batch() == old(self).pending_batch()
                    &&& final(self).handed_batches() == old(self).handed_batches()
                },
                Some(m) => {
                    &&& final(self).skipped() == old(self).skipped()
                    &&& final(self).results().len() == old(self).results().len() + 1
                    &&& final(self).results().drop_last() == old(self).results()
                    &&& is_entry_for(
                        final(self).results().last(),
                        old(self).pending_file()->Some_0,
                        m.size_bytes,
                        m.modified_at,
                    )
                    &&& final(self).result_paths() == old(self).result_paths().push(
                        old(self).pending_file()->Some_0,
                    )
                    &&& step.stop == final(self).limit_reached()
                    &&& step.stop ==> final(self).queue().len() == 0
                    &&& !step.stop ==> final(self).queue() == old(self).queue()
                    &&& match step.batch {
                        Some(b) => {
                            &&& b@.len() == old(self).batch_threshold()
                            &&& b@ == final(self).results().subrange(
                                old(self).delivered() as int,
                                final(self).delivered() as int,
                            )
                            &&& final(self).delivered() == final(self).results().len()
                        },
                        None => final(self).delivered() == old(self).delivered(),
                    }
                    &&& final(self).handed_batches() == (match step.batch {
                        Some(b) => old(self).handed_batches().push(b@),
                        None => old(self).handed_batches(),
                    })
                },
            },
    {
        let path = match self.pending.take() {
            Some(p) => p,
            None => Vec::new(),
        };
        let meta = match metadata {
            Some(m) => m,
            None => {
                self.skipped_count = self.skipped_count + 1;
                return FileStep { batch: None, stop: false };
            },
        };
        let entry = file_entry(path.as_slice(), meta.size_bytes, meta.modified_at);
        let ghost old_entries = self.entries@;
        self.entries = Ghost(self.entries@.push(entry));
        assert(self.entries@.take(self.delivered@ as int) =~= old_entries.take(
            self.delivered@ as int,
        ));
        self.paths = Ghost(self.paths@.push(path@));
        self.origin = Ghost(self.origin@.push(self.files@.len() - 1));
        self.batch.push(entry);
        self.result_count = self.result_count + 1;
        assert(self.batch@ =~= self.entries@.subrange(
            self.delivered@ as int,
            self.entries@.len() as int,
        ));
        let mut batch = None;
        if self.batch.len() >= self.batch_size {
            let mut full = Vec::new();
            std::mem::swap(&mut full, &mut self.batch);
            proof {
                let old_delivered = self.delivered@;
                assert(self.handed@.push(full@).drop_last() =~= self.handed@);
                assert(self.entries@.take(old_delivered as int) + full@ =~= self.entries@.take(
                    self.entries@.len() as int,
                ));
                self.handed@ = self.handed@.push(full@);
            }
            self.delivered = Ghost(self.entries@.len());
            assert(self.batch@ =~= self.entries@.subrange(
                self.delivered@ as int,
                self.entries@.len() as int,
            ));
            batch = Some(full);
        }
        let stop = self.result_count >= self.max_results;
        if stop {
            self.queue.clear();
        }
        FileStep { batch, stop }
    }

    /// Ends the search: hands out the results not yet reported, if any, and
    /// the counts, with `cancelled` as the caller observed it.
    pub fn finish(self, cancelled: bool) -> (r: (Option<Vec<FileEntry>>, TraversalOutcome))
        requires
            self.wf(),
        ensures
            match r.0 {
                Some(b) => b@.len() > 0 && b@ == self.pending_batch(),
                None => self.pending_batch().len() == 0,
            },
            self.handed_batches().flatten_alt() + (match r.0 {
                Some(b) => b@,
                None => Seq::<FileEntry>::empty(),
            }) == self.results(),
            r.1.scanned_count == self.scanned(),
            r.1.result_count == self.results().len(),
            r.1.skipped_count == self.skipped(),
            r.1.cancelled == cancelled,
    {
        let outcome = TraversalOutcome {
            scanned_count: self.scanned_count,
            result_count: self.result_count,
            skipped_count: self.skipped_count,
            cancelled,
        };
        let rest = if self.batch.len() > 0 {
            Some(self.batch)
        } else {
            None
        };
        (rest, outcome)
    }
}

/// What every state of a search satisfies: progress reports come in
/// increasing order, each at least `PROGRESS_INTERVAL` entries after the one
/// before and none beyond the entries scanned; every result was handed out
/// or waits in the pending batch, which stays below the batch size; there
/// are never more results than the limit; every result's name matched every
/// token, and every result is the entry for its own path.
pub proof fn lemma_traversal_accounting<D>(t: &Traversal<D>)
    requires
        t.wf(),
    ensures
        t.last_progress() <= t.scanned(),
        forall|i: int, j: int|
            0 <= i < j < t.reports().len() ==> #[trigger] t.reports()[i] + PROGRESS_INTERVAL
                <= #[trigger] t.reports()[j],
        forall|i: int| 0 <= i < t.reports().len() ==> #[trigger] t.reports()[i] <= t.scanned(),
        t.results().len() == t.delivered() + t.pending_batch().len(),
        t.pending_batch() == t.results().subrange(t.delivered() as int, t.results().len() as int),
        t.pending_batch().len() < t.batch_threshold(),
        t.results().len() <= t.result_limit(),
        t.result_paths().len() == t.results().len(),
        forall|i: int|
            0 <= i < t.results().len() ==> name_matches(
                (#[trigger] t.results()[i]).display_name@,
                t.tokens(),
            ),
        forall|i: int|
            0 <= i < t.results().len() ==> is_entry_for(
                #[trigger] t.results()[i],
                t.result_paths()[i],
                t.results()[i].size_bytes,
                t.results()[i].modified_at,
            ),
        t.reports() == progress_marks(t.scanned()),
{
    let r = t.reports();
    assert forall|i: int, j: int| 0 <= i < j < r.len() implies #[trigger] r[i] + PROGRESS_INTERVAL
        <= #[trigger] r[j] by {
        lemma_spaced_pairs(r, i, j);
    }
    assert forall|i: int| 0 <= i < r.len() implies #[trigger] r[i] <= t.scanned() by {
        if i < r.len() - 1 {
            lemma_spaced_pairs(r, i, r.len() - 1);
        }
    }
}

/// Every result is handed out once and in order: the batches handed out so
/// far, followed by the batch still pending, are exactly the results. So
/// the batches a finished search reported hold as many items as its result
/// count.
pub proof fn lemma_batches_hold_every_result<D>(t: &Traversal<D>)
    requires
        t.wf(),
    ensures
        t.handed_batches().flatten_alt() + t.pending_batch() == t.results(),
        t.handed_batches().flatten_alt().len() + t.pending_batch().len() == t.results().len(),
{
    assert(t.entries@.take(t.delivered@ as int) + t.batch@ =~= t.entries@);
}

/// Directories are searched breadth first: until the result limit is
/// reached, the queue holds exactly the directories found and not yet
/// taken, in the order they were found, starting with the root. So a
/// directory is taken only after every directory found before it.
pub proof fn lemma_walk_is_breadth_first<D>(t: &Traversal<D>)
    requires
        t.wf(),
        !t.limit_reached(),
    ensures
        t.found_directories()[0] == t.walk_root(),
        t.directories_taken() <= t.found_directories().len(),
        t.queue() == t.found_directories().skip(t.directories_taken() as int),
{
    lemma_walk_starts_at_root(t.walk_root(), t.walk_log());
}

/// What a search walks depends on what it observed of the tree alone: two
/// searches from the same root that made the same observations have seen
/// the same number of entries, made the same progress reports and found the
/// same directories, and while neither has reached its result limit they
/// hold the same queue, whatever their tokens, batch sizes, result limits
/// or results.
pub proof fn lemma_walk_depends_on_observations_alone<D>(a: &Traversal<D>, b: &Traversal<D>)
    requires
        a.wf(),
        b.wf(),
        a.walk_root() == b.walk_root(),
        a.walk_log() == b.walk_log(),
    ensures
        a.scanned() == b.scanned(),
        a.reports() == b.reports(),
        a.found_directories() == b.found_directories(),
        a.directories_taken() == b.directories_taken(),
        !a.limit_reached() && !b.limit_reached() ==> a.queue() == b.queue(),
{
}

/// A search reports only files it classified, in the order it classified
/// them, and each at most once: when no file was classified twice, no two
/// results share a path.
pub proof fn lemma_results_are_distinct_files<D>(t: &Traversal<D>)
    requires
        t.wf(),
    ensures
        forall|i: int|
            0 <= i < t.result_paths().len() ==> t.classified_files().contains(
                #[trigger] t.result_paths()[i],
            ),
        t.classified_files().no_duplicates() ==> t.result_paths().no_duplicates(),
{
    let files = t.files@;
    let origin = t.origin@;
    let paths = t.paths@;
    assert forall|i: int| 0 <= i < paths.len() implies files.contains(#[trigger] paths[i]) by {
        assert(0 <= origin[i] < files.len());
    }
    if files.no_duplicates() {
        assert forall|i: int, j: int|
            0 <= i < paths.len() && 0 <= j < paths.len() && i != j implies paths[i] != paths[j] by {
            assert(0 <= origin[i] < files.len() && 0 <= origin[j] < files.len());
            if i < j {
                assert(origin[i] < origin[j]);
            } else {
                assert(origin[j] < origin[i]);
            }
        }
    }
}

/// Progress reports depend on nothing but the number of entries scanned:
/// two searches that scanned equally many entries made the same reports and
/// last reported at the same count, whatever their tokens, batch sizes,
/// result limits, results or directories.
pub proof fn lemma_progress_depends_on_scan_count_alone<D, E>(a: &Traversal<D>, b: &Traversal<E>)
    requires
        a.wf(),
        b.wf(),
        a.scanned() == b.scanned(),
    ensures
        a.reports() == b.reports(),
        a.last_progress() == b.last_progress(),
{
}

/// One more scanned entry brings a progress report exactly when it reaches
/// the next multiple of `PROGRESS_INTERVAL`.
proof fn lemma_progress_step(s: nat)
    requires
        s + 1 <= usize::MAX,
    ensures
        (s / PROGRESS_INTERVAL as nat) * PROGRESS_INTERVAL <= s,
        (s + 1) as nat % (PROGRESS_INTERVAL as nat) == 0 <==> s + 1 >= (s / PROGRESS_INTERVAL as nat)
            * PROGRESS_INTERVAL + PROGRESS_INTERVAL,
        s + 1 >= (s / PROGRESS_INTERVAL as nat) * PROGRESS_INTERVAL + PROGRESS_INTERVAL ==> {
            &&& ((s + 1) as nat / PROGRESS_INTERVAL as nat) * PROGRESS_INTERVAL == s + 1
            &&& progress_marks((s + 1) as nat) == progress_marks(s).push((s + 1) as usize)
        },
        s + 1 < (s / PROGRESS_INTERVAL as nat) * PROGRESS_INTERVAL + PROGRESS_INTERVAL ==> {
            &&& ((s + 1) as nat / PROGRESS_INTERVAL as nat) * PROGRESS_INTERVAL == (s
                / PROGRESS_INTERVAL as nat) * PROGRESS_INTERVAL
            &&& progress_marks((s + 1) as nat) == progress_marks(s)
        },
{
    let q = s / 250;
    let t = (s + 1) as nat;
    assert(q * 250 <= s && s < q * 250 + 250) by (nonlinear_arith)
        requires
            q == s / 250,
    ;
    if t >= q * 250 + 250 {
        assert(t == q * 250 + 250);
        assert(t / 250 == q + 1 && t % 250 == 0) by (nonlinear_arith)
            requires
                t == q * 250 + 250,
        ;
        assert(progress_marks(t) =~= progress_marks(s).push(t as usize));
    } else {
        assert(t / 250 == q && t % 250 != 0) by (nonlinear_arith)
            requires
                q * 250 <= s,
                t < q * 250 + 250,
                t == s + 1,
        ;
        assert(progress_marks(t) =~= progress_marks(s));
    }
}

proof fn lemma_spaced_pairs(r: Seq<usize>, i: int, j: int)
    requires
        reports_spaced(r),
        0 <= i < j < r.len(),
    ensures
        r[i] + PROGRESS_INTERVAL <= r[j],
    decreases j - i,
{
    if j > i + 1 {
        lemma_spaced_pairs(r, i, j - 1);
        assert(r[j - 1] + PROGRESS_INTERVAL <= r[j]);
    }
}

} // verus!
