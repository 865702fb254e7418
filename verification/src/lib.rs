//! Search core of a local file-name finder: query tokenizing and matching,
//! file classification, the path model behind the root checks, the export
//! limits and the breadth-first traversal as a state machine.
pub mod entry;
pub mod export;
pub mod paths;
pub mod query;
pub mod roots;
pub mod search;
pub mod text;
pub mod traversal;

pub use entry::{classify, file_entry, stable_id, FileEntry};
pub use export::{
    export_text, validate_export_lines, MAX_EXPORT_LINES, MAX_EXPORT_LINE_BYTES,
    MAX_EXPORT_TOTAL_BYTES,
};
pub use query::{matches_name, normalize_query};
pub use roots::{admit_search_root, canonical_child, validated_allowed_file, AllowedRoots};
pub use search::{
    completion_event, plan_search, platform_capabilities, PlatformCapabilities,
    SearchBatchPayload, SearchCancelledPayload, SearchCompletion, SearchEvent, SearchEvents,
    SearchFinishedPayload, SearchPlan, SearchProgressPayload, SearchRegistry, SearchRequest,
};
pub use traversal::{
    should_emit_progress, EntryDecision, EntryKind, FileMetadata, FileStep, Traversal,
    TraversalOutcome, WalkEvent, PROGRESS_INTERVAL,
};
