//! Search requests and sessions: checking a request against the released
//! roots, the registry of running sessions, and the events a search sends.
use vstd::prelude::*;
use crate::entry::FileEntry;
use crate::query::{normalize_query, query_tokens};
use crate::roots::{
    holds_path, not_a_directory_message, path_result, root_not_released_message,
    root_unopenable_message, AllowedRoots,
};
use crate::text::{all_white, byte_len, is_all_white, string_views, trim_text, trimmed, utf8_len};
use crate::traversal::TraversalOutcome;

verus! {

/// Smallest batch size a search may use.
pub const MIN_BATCH_SIZE: usize = 10;

/// Largest batch size a search may use.
pub const MAX_BATCH_SIZE: usize = 500;

/// Smallest result limit a search may use.
pub const MIN_RESULT_LIMIT: usize = 1;

/// Largest result limit a search may use.
pub const MAX_RESULT_LIMIT: usize = 250_000;

/// Longest session identifier, in bytes.
pub const MAX_SESSION_ID_BYTES: usize = 128;

/// A request to start a search.
pub struct SearchRequest {
    pub session_id: String,
    pub root_path: String,
    pub query: String,
    pub batch_size: usize,
    pub max_results: usize,
}

/// A search that passed every check, ready to run.
pub struct SearchPlan {
    /// The session identifier without surrounding whitespace.
    pub session_id: String,
    /// The canonical root to search, as the bytes of its encoded path.
    pub canonical_root: Vec<u8>,
    /// The query tokens.
    pub tokens: Vec<String>,
    pub batch_size: usize,
    pub max_results: usize,
}

/// `x` limited to the range `lo..=hi`, as `Ord::clamp` gives it.
pub open spec fn clamped(x: usize, lo: usize, hi: usize) -> usize {
    if x < lo {
        lo
    } else if x > hi {
        hi
    } else {
        x
    }
}

fn clamp(x: usize, lo: usize, hi: usize) -> (r: usize)
    ensures
        r == clamped(x, lo, hi),
{
    if x < lo {
        lo
    } else if x > hi {
        hi
    } else {
        x
    }
}

/// Text of the error for a request without a root.
pub open spec fn no_root_message() -> Seq<char> {
    "Kein Suchort angegeben."@
}

/// Text of the error for an unusable session identifier.
pub open spec fn invalid_session_message() -> Seq<char> {
    "Ungültige Suchsitzung."@
}

/// Text of the error for a session identifier that is in use.
pub open spec fn session_exists_message() -> Seq<char> {
    "Diese Suchsitzung existiert bereits."@
}

/// Whether `plan` is the search that `request` asks for, with `root` as its
/// canonical root.
pub open spec fn is_plan_for(plan: SearchPlan, request: SearchRequest, root: Seq<u8>) -> bool {
    &&& plan.session_id@ == trimmed(request.session_id@)
    &&& plan.canonical_root@ == root
    &&& string_views(plan.tokens@) == query_tokens(request.query@)
    &&& plan.batch_size == clamped(request.batch_size, MIN_BATCH_SIZE, MAX_BATCH_SIZE)
    &&& plan.max_results == clamped(request.max_results, MIN_RESULT_LIMIT, MAX_RESULT_LIMIT)
}

/// The error, if any, that refuses `request`, given the outcome of
/// canonicalizing its root and whether that root is a directory.
pub open spec fn plan_refusal(
    released: Set<Seq<u8>>,
    request: SearchRequest,
    canonical_root: Result<Seq<u8>, Seq<char>>,
    is_dir: bool,
) -> Option<Seq<char>> {
    if all_white(request.root_path@) {
        Some(no_root_message())
    } else {
        match canonical_root {
            Err(e) => Some(root_unopenable_message(e)),
            Ok(root) => if !is_dir {
                Some(not_a_directory_message())
            } else if !holds_path(released, root) {
                Some(root_not_released_message())
            } else {
                let id = trimmed(request.session_id@);
                if id.len() == 0 || byte_len(id) > MAX_SESSION_ID_BYTES {
                    Some(invalid_session_message())
                } else {
                    None
                }
            },
        }
    }
}

/// Checks a search request. `canonical_root` is the outcome of
/// canonicalizing the requested root, which is needed only when the root
/// is not blank; `is_dir` whether it is a directory. A request is refused
/// for a blank root, a root that cannot be opened, is no directory or was
/// not released in this session, and for a session identifier that is
/// blank or longer than `MAX_SESSION_ID_BYTES` bytes once trimmed.
/// Otherwise batch size and result limit are clamped to their ranges and
/// the query is split into tokens.
pub fn plan_search(
    request: &SearchRequest,
    canonical_root: Result<Vec<u8>, String>,
    is_dir: bool,
    allowed_roots: &AllowedRoots,
) -> (r: Result<SearchPlan, String>)
    ensures
        match plan_refusal(allowed_roots.roots(), *request, path_result(canonical_root), is_dir) {
            Some(msg) => r is Err && r->Err_0@ == msg,
            None => r is Ok && is_plan_for(r->Ok_0, *request, canonical_root->Ok_0@),
        },
{
    if is_all_white(request.root_path.as_str()) {
        return Err(String::from_str("Kein Suchort angegeben."));
    }
    let canonical_root = match canonical_root {
        Ok(c) => c,
        Err(e) => {
            return Err(String::from_str("Suchort kann nicht geöffnet werden: ").concat(e.as_str()));
        },
    };
    if !is_dir {
        return Err(String::from_str("Der gewählte Suchort ist kein Ordner."));
    }
    if !allowed_roots.contains(&canonical_root) {
        return Err(String::from_str("Der Suchort wurde in dieser Sitzung nicht freigegeben."));
    }
    let batch_size = clamp(request.batch_size, MIN_BATCH_SIZE, MAX_BATCH_SIZE);
    let max_results = clamp(request.max_results, MIN_RESULT_LIMIT, MAX_RESULT_LIMIT);
    let tokens = normalize_query(request.query.as_str());
    let id = trim_text(request.session_id.as_str());
    if id.as_str().is_empty() || utf8_len(id.as_str()) > MAX_SESSION_ID_BYTES {
        return Err(String::from_str("Ungültige Suchsitzung."));
    }
    Ok(SearchPlan { session_id: id, canonical_root, tokens, batch_size, max_results })
}

/// A batch of results.
pub struct SearchBatchPayload {
    pub session_id: String,
    pub items: Vec<FileEntry>,
    pub scanned_count: usize,
}

/// A progress report.
pub struct SearchProgressPayload {
    pub session_id: String,
    pub scanned_count: usize,
}

/// The report of a search that ran to its end.
pub struct SearchFinishedPayload {
    pub session_id: String,
    pub scanned_count: usize,
    pub result_count: usize,
    pub skipped_count: usize,
    pub duration_ms: u128,
}

/// The report of a cancelled search.
pub struct SearchCancelledPayload {
    pub session_id: String,
}

/// The last event of a search.
pub enum SearchCompletion {
    Cancelled(SearchCancelledPayload),
    Finished(SearchFinishedPayload),
}

/// Whether `e` is the last event of the search `session_id` with the given
/// outcome and running time.
pub open spec fn is_completion_of(
    e: SearchCompletion,
    session_id: Seq<char>,
    outcome: TraversalOutcome,
    duration_ms: u128,
) -> bool {
    match e {
        SearchCompletion::Cancelled(p) => outcome.cancelled && p.session_id@ == session_id,
        SearchCompletion::Finished(p) => {
            &&& !outcome.cancelled
            &&& p.session_id@ == session_id
            &&& p.scanned_count == outcome.scanned_count
            &&& p.result_count == outcome.result_count
            &&& p.skipped_count == outcome.skipped_count
            &&& p.duration_ms == duration_ms
        },
    }
}

/// The last event of the search `session_id`, from its outcome and how
/// long it ran: cancelled when the search was cancelled, else finished
/// with its counts.
pub fn completion_event(session_id: String, outcome: &TraversalOutcome, duration_ms: u128) -> (e:
    SearchCompletion)
    ensures
        is_completion_of(e, session_id@, *outcome, duration_ms),
{
    if outcome.cancelled {
        SearchCompletion::Cancelled(SearchCancelledPayload { session_id })
    } else {
        SearchCompletion::Finished(
            SearchFinishedPayload {
                session_id,
                scanned_count: outcome.scanned_count,
                result_count: outcome.result_count,
                skipped_count: outcome.skipped_count,
                duration_ms,
            },
        )
    }
}

/// An event that a search sends.
pub enum SearchEvent {
    Progress(SearchProgressPayload),
    Batch(SearchBatchPayload),
    Cancelled(SearchCancelledPayload),
    Finished(SearchFinishedPayload),
}

/// The session identifier that an event carries.
pub open spec fn event_session(e: SearchEvent) -> Seq<char> {
    match e {
        SearchEvent::Progress(p) => p.session_id@,
        SearchEvent::Batch(p) => p.session_id@,
        SearchEvent::Cancelled(p) => p.session_id@,
        SearchEvent::Finished(p) => p.session_id@,
    }
}

/// Whether `e` ends its search.
pub open spec fn is_terminal(e: SearchEvent) -> bool {
    e is Cancelled || e is Finished
}

/// Whether every one of `events` carries the session identifier `id` and
/// none follows a terminal event.
pub open spec fn events_in_order(events: Seq<SearchEvent>, id: Seq<char>) -> bool {
    &&& forall|i: int| 0 <= i < events.len() ==> event_session(#[trigger] events[i]) == id
    &&& forall|i: int| 0 <= i < events.len() - 1 ==> !is_terminal(#[trigger] events[i])
}

/// Whether `events` end with a terminal event.
pub open spec fn events_ended(events: Seq<SearchEvent>) -> bool {
    events.len() > 0 && is_terminal(events.last())
}

/// The events of one search. Every event carries the search's session
/// identifier; progress reports and batches are sent only until the search
/// ends, and it ends with one terminal event.
pub struct SearchEvents {
    session_id: String,
    /// Whether the terminal event was sent, and the events sent so far; the
    /// two change together.
    status: (bool, Ghost<Seq<SearchEvent>>),
}

impl SearchEvents {
    #[verifier::type_invariant]
    spec fn well_formed(self) -> bool {
        &&& events_in_order(self.status.1@, self.session_id@)
        &&& self.status.0 == events_ended(self.status.1@)
    }

    /// The session the events belong to.
    pub closed spec fn session_id(&self) -> Seq<char> {
        self.session_id@
    }

    /// The events sent so far, in order.
    pub closed spec fn sent(&self) -> Seq<SearchEvent> {
        self.status.1@
    }

    /// The events of the search `session_id`, none sent yet.
    pub fn new(session_id: String) -> (s: Self)
        ensures
            s.session_id() == session_id@,
            s.sent() == Seq::<SearchEvent>::empty(),
    {
        SearchEvents { session_id, status: (false, Ghost(Seq::empty())) }
    }

    /// Whether the terminal event was sent.
    pub fn has_ended(&self) -> (b: bool)
        ensures
            b == events_ended(self.sent()),
    {
        proof {
            use_type_invariant(self);
        }
        self.status.0
    }

    /// The progress report at `scanned_count` entries, unless the search
    /// has ended.
    pub fn progress(&mut self, scanned_count: usize) -> (p: Option<SearchProgressPayload>)
        ensures
            final(self).session_id() == old(self).session_id(),
            events_in_order(final(self).sent(), final(self).session_id()),
            match p {
                Some(p) => {
                    &&& !events_ended(old(self).sent())
                    &&& p.session_id@ == old(self).session_id()
                    &&& p.scanned_count == scanned_count
                    &&& final(self).sent() == old(self).sent().push(SearchEvent::Progress(p))
                },
                None => events_ended(old(self).sent()) && final(self).sent() == old(self).sent(),
            },
    {
        proof {
            use_type_invariant(&*self);
        }
        if self.status.0 {
            return None;
        }
        let p = SearchProgressPayload { session_id: self.session_id.clone(), scanned_count };
        let ghost sent = self.status.1@.push(SearchEvent::Progress(p));
        assert(sent[sent.len() - 1] == SearchEvent::Progress(p));
        self.status = (false, Ghost(sent));
        Some(p)
    }

    /// The batch `items` at `scanned_count` entries, unless the search has
    /// ended.
    pub fn batch(&mut self, items: Vec<FileEntry>, scanned_count: usize) -> (p: Option<
        SearchBatchPayload,
    >)
        ensures
            final(self).session_id() == old(self).session_id(),
            events_in_order(final(self).sent(), final(self).session_id()),
            match p {
                Some(p) => {
                    &&& !events_ended(old(self).sent())
                    &&& p.session_id@ == old(self).session_id()
                    &&& p.items@ == items@
                    &&& p.scanned_count == scanned_count
                    &&& final(self).sent() == old(self).sent().push(SearchEvent::Batch(p))
                },
                None => events_ended(old(self).sent()) && final(self).sent() == old(self).sent(),
            },
    {
        proof {
            use_type_invariant(&*self);
        }
        if self.status.0 {
            return None;
        }
        let p = SearchBatchPayload { session_id: self.session_id.clone(), items, scanned_count };
        let ghost sent = self.status.1@.push(SearchEvent::Batch(p));
        assert(sent[sent.len() - 1] == SearchEvent::Batch(p));
        self.status = (false, Ghost(sent));
        Some(p)
    }

    /// The terminal event of the search, from its outcome and how long it
    /// ran, unless it was sent already: cancelled when the search was
    /// cancelled, else finished with its counts.
    pub fn complete(&mut self, outcome: &TraversalOutcome, duration_ms: u128) -> (c: Option<
        SearchCompletion,
    >)
        ensures
            final(self).session_id() == old(self).session_id(),
            events_in_order(final(self).sent(), final(self).session_id()),
            events_ended(final(self).sent()),
            match c {
                Some(c) => {
                    &&& !events_ended(old(self).sent())
                    &&& is_completion_of(c, old(self).session_id(), *outcome, duration_ms)
                    &&& final(self).sent() == old(self).sent().push(completion_as_event(c))
                },
                None => events_ended(old(self).sent()) && final(self).sent() == old(self).sent(),
            },
    {
        proof {
            use_type_invariant(&*self);
        }
        if self.status.0 {
            return None;
        }
        let c = completion_event(self.session_id.clone(), outcome, duration_ms);
        let ghost sent = self.status.1@.push(completion_as_event(c));
        assert(sent[sent.len() - 1] == completion_as_event(c));
        self.status = (true, Ghost(sent));
        Some(c)
    }
}

/// The terminal event that a completion is.
pub open spec fn completion_as_event(c: SearchCompletion) -> SearchEvent {
    match c {
        SearchCompletion::Cancelled(p) => SearchEvent::Cancelled(p),
        SearchCompletion::Finished(p) => SearchEvent::Finished(p),
    }
}

/// A search sends at most one terminal event, and nothing after it: in
/// events in order, a terminal event is the last one.
pub proof fn lemma_one_terminal_event(events: Seq<SearchEvent>, id: Seq<char>)
    requires
        events_in_order(events, id),
    ensures
        forall|i: int| 0 <= i < events.len() && is_terminal(#[trigger] events[i]) ==> i == events.len() - 1,
        forall|i: int, j: int|
            0 <= i < events.len() && 0 <= j < events.len() && is_terminal(#[trigger] events[i])
                && is_terminal(#[trigger] events[j]) ==> i == j,
{
}

/// What the running platform offers.
pub struct PlatformCapabilities {
    pub platform: String,
    pub can_pick_folder: bool,
    pub can_open_file: bool,
    pub can_reveal_file: bool,
    pub can_search_recursively: bool,
    pub supports_picked_files: bool,
}

/// The capabilities of `platform`: a desktop picks, opens, reveals and
/// searches folders; a mobile platform works on picked files only.
pub fn platform_capabilities(platform: String, mobile: bool) -> (c: PlatformCapabilities)
    ensures
        c.platform@ == platform@,
        c.can_pick_folder == !mobile,
        c.can_open_file == !mobile,
        c.can_reveal_file == !mobile,
        c.can_search_recursively == !mobile,
        c.supports_picked_files == mobile,
{
    PlatformCapabilities {
        platform,
        can_pick_folder: !mobile,
        can_open_file: !mobile,
        can_reveal_file: !mobile,
        can_search_recursively: !mobile,
        supports_picked_files: mobile,
    }
}

/// A search that passed the checks uses a batch size and a result limit
/// within their ranges, whatever the request asked for.
pub proof fn lemma_plan_within_ranges(plan: SearchPlan, request: SearchRequest, root: Seq<u8>)
    requires
        is_plan_for(plan, request, root),
    ensures
        MIN_BATCH_SIZE <= plan.batch_size <= MAX_BATCH_SIZE,
        MIN_RESULT_LIMIT <= plan.max_results <= MAX_RESULT_LIMIT,
        MIN_BATCH_SIZE <= request.batch_size <= MAX_BATCH_SIZE ==> plan.batch_size
            == request.batch_size,
        MIN_RESULT_LIMIT <= request.max_results <= MAX_RESULT_LIMIT ==> plan.max_results
            == request.max_results,
{
}

/// In a sequence without duplicates, an item's index is where it stands.
proof fn lemma_index_of_unique<A>(s: Seq<A>, i: int)
    requires
        s.no_duplicates(),
        0 <= i < s.len(),
    ensures
        s.index_of(s[i]) == i,
{
    assert(s.contains(s[i]));
}

/// The running searches of this session, each under its identifier with the
/// caller's cancellation handle.
pub struct SearchRegistry<C> {
    entries: Vec<(String, C)>,
}

impl<C> SearchRegistry<C> {
    /// The session identifiers, in order of opening.
    pub closed spec fn ids(&self) -> Seq<Seq<char>> {
        self.entries@.map_values(|e: (String, C)| e.0@)
    }

    #[verifier::type_invariant]
    spec fn well_formed(&self) -> bool {
        self.ids().no_duplicates()
    }

    /// The running sessions and their handles.
    pub closed spec fn sessions(&self) -> Map<Seq<char>, C> {
        Map::new(
            |k: Seq<char>| self.ids().contains(k),
            |k: Seq<char>| self.entries@[self.ids().index_of(k)].1,
        )
    }

    /// A registry without sessions.
    pub fn new() -> (r: Self)
        ensures
            r.sessions() == Map::<Seq<char>, C>::empty(),
    {
        let r = SearchRegistry { entries: Vec::new() };
        assert(r.sessions() =~= Map::<Seq<char>, C>::empty());
        r
    }

    fn find(&self, id: &String) -> (r: Option<usize>)
        ensures
            match r {
                Some(i) => i < self.entries@.len() && self.ids()[i as int] == id@,
                None => !self.ids().contains(id@),
            },
    {
        let n = self.entries.len();
        let mut i: usize = 0;
        while i < n
            invariant
                n == self.entries@.len(),
                i <= n,
                forall|j: int| 0 <= j < i ==> self.ids()[j] != id@,
            decreases n - i,
        {
            if self.entries[i].0 == *id {
                return Some(i);
            }
            i = i + 1;
        }
        None
    }

    /// Whether a session `id` is running.
    pub fn contains(&self, id: &String) -> (r: bool)
        ensures
            r == self.sessions().contains_key(id@),
    {
        self.find(id).is_some()
    }

    /// The handle of the session `id`, if it is running.
    pub fn handle(&self, id: &String) -> (r: Option<&C>)
        ensures
            match r {
                Some(h) => self.sessions().contains_key(id@) && *h == self.sessions()[id@],
                None => !self.sessions().contains_key(id@),
            },
    {
        proof {
            use_type_invariant(self);
        }
        match self.find(id) {
            Some(i) => {
                proof {
                    lemma_index_of_unique(self.ids(), i as int);
                }
                Some(&self.entries[i].1)
            },
            None => None,
        }
    }

    /// Opens the session `id` with its cancellation handle; an identifier in
    /// use is refused and the registry is left as it was.
    pub fn open_session(&mut self, id: String, handle: C) -> (r: Result<(), String>)
        ensures
            old(self).sessions().contains_key(id@) ==> r is Err && r->Err_0@
                == session_exists_message() && final(self).sessions() == old(self).sessions(),
            !old(self).sessions().contains_key(id@) ==> r is Ok && final(self).sessions() == old(
                self).sessions().insert(id@, handle),
    {
        proof {
            use_type_invariant(&*self);
        }
        if self.contains(&id) {
            return Err(String::from_str("Diese Suchsitzung existiert bereits."));
        }
        let ghost old_ids = self.ids();
        let ghost old_map = self.sessions();
        let ghost key = id@;
        let mut entries = Vec::new();
        std::mem::swap(&mut entries, &mut self.entries);
        entries.push((id, handle));
        let ghost new_ids = entries@.map_values(|e: (String, C)| e.0@);
        assert(new_ids =~= old_ids.push(key));
        assert(new_ids.no_duplicates());
        assert forall|k: Seq<char>| #[trigger] new_ids.contains(k) <==> old_ids.contains(k) || k == key by {
            if old_ids.contains(k) {
                let j = choose|j: int| 0 <= j < old_ids.len() && old_ids[j] == k;
                assert(new_ids[j] == k);
            }
            if k == key {
                assert(new_ids[old_ids.len() as int] == k);
            }
        }
        assert forall|k: Seq<char>| new_ids.contains(k) implies entries@[#[trigger] new_ids.index_of(k)].1
            == old_map.insert(key, handle)[k] by {
            if k == key {
                lemma_index_of_unique(new_ids, old_ids.len() as int);
            } else {
                let j = choose|j: int| 0 <= j < old_ids.len() && old_ids[j] == k;
                lemma_index_of_unique(new_ids, j);
                lemma_index_of_unique(old_ids, j);
            }
        }
        self.entries = entries;
        assert(self.sessions() =~= old_map.insert(key, handle));
        Ok(())
    }

    /// Closes the session `id` and gives back its handle, if it was running.
    pub fn close_session(&mut self, id: &String) -> (r: Option<C>)
        ensures
            final(self).sessions() == old(self).sessions().remove(id@),
            match r {
                Some(h) => old(self).sessions().contains_key(id@) && h == old(self).sessions()[id@],
                None => !old(self).sessions().contains_key(id@),
            },
    {
        proof {
            use_type_invariant(&*self);
        }
        let i = match self.find(id) {
            Some(i) => i,
            None => {
                assert(self.sessions() =~= old(self).sessions().remove(id@));
                return None;
            },
        };
        let ghost old_ids = self.ids();
        let ghost old_map = self.sessions();
        let ghost key = id@;
        proof {
            lemma_index_of_unique(old_ids, i as int);
        }
        let mut entries = Vec::new();
        std::mem::swap(&mut entries, &mut self.entries);
        let removed = entries.remove(i);
        let ghost new_ids = entries@.map_values(|e: (String, C)| e.0@);
        assert(new_ids =~= old_ids.remove(i as int));
        assert(new_ids.no_duplicates());
        assert forall|k: Seq<char>| #[trigger] new_ids.contains(k) <==> old_ids.contains(k) && k != key by {
            if old_ids.contains(k) && k != key {
                let j = choose|j: int| 0 <= j < old_ids.len() && old_ids[j] == k;
                if j < i {
                    assert(new_ids[j] == k);
                } else {
                    assert(j != i);
                    assert(new_ids[j - 1] == k);
                }
            }
            if new_ids.contains(k) {
                let j = choose|j: int| 0 <= j < new_ids.len() && new_ids[j] == k;
                if j < i {
                    assert(old_ids[j] == k);
                } else {
                    assert(old_ids[j + 1] == k);
                    assert(j + 1 != i);
                }
            }
        }
        assert forall|k: Seq<char>| new_ids.contains(k) implies entries@[#[trigger] new_ids.index_of(k)].1
            == old_map[k] by {
            let j = choose|j: int| 0 <= j < new_ids.len() && new_ids[j] == k;
            lemma_index_of_unique(new_ids, j);
            if j < i {
                lemma_index_of_unique(old_ids, j);
            } else {
                assert(old_ids[j + 1] == k);
                lemma_index_of_unique(old_ids, j + 1);
            }
        }
        self.entries = entries;
        assert(self.sessions() =~= old_map.remove(key));
        Some(removed.1)
    }
}

} // verus!
