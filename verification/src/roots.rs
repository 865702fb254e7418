//! The session's registry of released search roots, and the checks that
//! keep file operations inside a released root.
//!
//! Canonicalizing a path reads the file system, so callers do it and hand
//! over its outcome: the canonical path as the bytes of its encoding, or
//! the text of the error. Paths are compared by their components, byte for
//! byte, as `Path` compares them: two paths that differ in any byte of a
//! component are different paths, whatever text they show.
use vstd::prelude::*;
use crate::paths::{
    byte_vec_views, path_starts_with, path_starts_with_exec, same_path, same_path_exec,
};
use vstd::seq_lib::seq_to_set_is_finite;

verus! {

/// The most roots one session may release.
pub const MAX_ROOTS: usize = 64;

/// The view of a result that carries text.
pub open spec fn text_result(r: Result<String, String>) -> Result<Seq<char>, Seq<char>> {
    match r {
        Ok(s) => Ok(s@),
        Err(e) => Err(e@),
    }
}

/// The view of a canonicalization outcome, or of a checked path: the bytes
/// of the path, or the text of the error.
pub open spec fn path_result(r: Result<Vec<u8>, String>) -> Result<Seq<u8>, Seq<char>> {
    match r {
        Ok(p) => Ok(p@),
        Err(e) => Err(e@),
    }
}

/// Text of the error for a search root that cannot be resolved.
pub open spec fn root_unavailable_message(e: Seq<char>) -> Seq<char> {
    "Suchort ist nicht verfügbar: "@ + e
}

/// Text of the error for a file that cannot be resolved.
pub open spec fn file_unavailable_message(e: Seq<char>) -> Seq<char> {
    "Datei ist nicht verfügbar: "@ + e
}

/// Text of the error for a file outside the released root.
pub open spec fn outside_root_message() -> Seq<char> {
    "Die Datei liegt außerhalb des freigegebenen Suchorts."@
}

/// Text of the error for a root that was not released in this session.
pub open spec fn root_not_released_message() -> Seq<char> {
    "Der Suchort wurde in dieser Sitzung nicht freigegeben."@
}

/// Text of the error for a file that no longer exists.
pub open spec fn file_gone_message() -> Seq<char> {
    "Die ausgewählte Datei ist nicht mehr vorhanden."@
}

/// Text of the error when the session holds too many roots.
pub open spec fn too_many_roots_message() -> Seq<char> {
    "Zu viele Suchorte in dieser Sitzung. Bitte DateiFinder neu starten."@
}

/// Text of the error for a picked root that cannot be opened.
pub open spec fn root_unopenable_message(e: Seq<char>) -> Seq<char> {
    "Suchort kann nicht geöffnet werden: "@ + e
}

/// Text of the error for a picked root that is not a directory.
pub open spec fn not_a_directory_message() -> Seq<char> {
    "Der gewählte Suchort ist kein Ordner."@
}

/// `prefix` followed by `detail`.
fn message_with(prefix: &str, detail: &String) -> (m: String)
    ensures
        m@ == prefix@ + detail@,
{
    String::from_str(prefix).concat(detail.as_str())
}

/// Whether `released` holds a root that is the same path as `p`.
pub open spec fn holds_path(released: Set<Seq<u8>>, p: Seq<u8>) -> bool {
    exists|x: Seq<u8>| #[trigger] released.contains(x) && same_path(x, p)
}

/// Whether no two of `roots` are the same path.
pub open spec fn distinct_paths(roots: Seq<Seq<u8>>) -> bool {
    forall|i: int, j: int|
        0 <= i < roots.len() && 0 <= j < roots.len() && i != j ==> !same_path(
            #[trigger] roots[i],
            #[trigger] roots[j],
        )
}

/// The registry of canonical search roots released in this session. A
/// root is held as the bytes of its encoded path; no two roots are the same
/// path.
pub struct AllowedRoots {
    roots: Vec<Vec<u8>>,
}

impl AllowedRoots {
    #[verifier::type_invariant]
    spec fn well_formed(self) -> bool {
        &&& byte_vec_views(self.roots@).no_duplicates()
        &&& distinct_paths(byte_vec_views(self.roots@))
        &&& self.roots@.len() <= MAX_ROOTS
    }

    /// The released roots.
    pub closed spec fn roots(self) -> Set<Seq<u8>> {
        byte_vec_views(self.roots@).to_set()
    }

    /// A registry without roots.
    pub fn new() -> (r: Self)
        ensures
            r.roots() == Set::<Seq<u8>>::empty(),
            r.roots().finite(),
    {
        let r = AllowedRoots { roots: Vec::new() };
        assert(r.roots() =~= Set::<Seq<u8>>::empty());
        r
    }

    /// How many roots are released; never more than `MAX_ROOTS`.
    pub fn len(&self) -> (n: usize)
        ensures
            self.roots().finite(),
            n == self.roots().len(),
            n <= MAX_ROOTS,
    {
        proof {
            use_type_invariant(self);
            byte_vec_views(self.roots@).unique_seq_to_set();
            seq_to_set_is_finite(byte_vec_views(self.roots@));
        }
        self.roots.len()
    }

    /// Whether `root` is released: some released root is the same path,
    /// compared component by component.
    pub fn contains(&self, root: &Vec<u8>) -> (r: bool)
        ensures
            r == holds_path(self.roots(), root@),
    {
        let ghost views = byte_vec_views(self.roots@);
        let n = self.roots.len();
        let mut i: usize = 0;
        while i < n
            invariant
                n == self.roots@.len(),
                views == byte_vec_views(self.roots@),
                i <= n,
                forall|j: int| 0 <= j < i ==> !same_path(#[trigger] views[j], root@),
            decreases n - i,
        {
            if same_path_exec(self.roots[i].as_slice(), root.as_slice()) {
                assert(views[i as int] == self.roots@[i as int]@);
                assert(views.contains(views[i as int]));
                assert(self.roots().contains(views[i as int]));
                return true;
            }
            assert(views[i as int] == self.roots@[i as int]@);
            i = i + 1;
        }
        assert forall|x: Seq<u8>| #[trigger] self.roots().contains(x) implies !same_path(
            x,
            root@,
        ) by {
            assert(views.contains(x));
            let j = choose|j: int| 0 <= j < views.len() && views[j] == x;
            assert(!same_path(views[j], root@));
        }
        false
    }

    /// Releases `root` for this session. A root that is released already,
    /// as the same path, is accepted again and leaves the registry as it
    /// was; a new root is refused once `MAX_ROOTS` are released.
    pub fn register(&mut self, root: Vec<u8>) -> (r: Result<(), String>)
        ensures
            holds_path(old(self).roots(), root@) ==> r is Ok && final(self).roots() == old(
                self,
            ).roots(),
            !holds_path(old(self).roots(), root@) && old(self).roots().len() >= MAX_ROOTS ==> r
                is Err && r->Err_0@ == too_many_roots_message()
                && final(self).roots() == old(self).roots(),
            !holds_path(old(self).roots(), root@) && old(self).roots().len() < MAX_ROOTS ==> r
                is Ok && final(self).roots() == old(self).roots().insert(root@),
            old(self).roots().finite(),
            final(self).roots().finite(),
            final(self).roots().len() <= MAX_ROOTS,
    {
        proof {
            use_type_invariant(&*self);
            byte_vec_views(self.roots@).unique_seq_to_set();
            seq_to_set_is_finite(byte_vec_views(self.roots@));
        }
        if self.contains(&root) {
            return Ok(());
        }
        if self.roots.len() >= MAX_ROOTS {
            return Err(String::from_str(
                "Zu viele Suchorte in dieser Sitzung. Bitte DateiFinder neu starten.",
            ));
        }
        let ghost before = byte_vec_views(self.roots@);
        let ghost r = root@;
        proof {
            assert forall|j: int| 0 <= j < before.len() implies !same_path(
                #[trigger] before[j],
                r,
            ) by {
                assert(before.contains(before[j]));
                assert(self.roots().contains(before[j]));
            }
        }
        let mut roots = Vec::new();
        std::mem::swap(&mut roots, &mut self.roots);
        roots.push(root);
        let ghost after = byte_vec_views(roots@);
        assert(after =~= before.push(r));
        assert(distinct_paths(after)) by {
            assert forall|i: int, j: int|
                0 <= i < after.len() && 0 <= j < after.len() && i != j implies !same_path(
                #[trigger] after[i],
                #[trigger] after[j],
            ) by {
                if i == before.len() {
                    assert(!same_path(before[j], r));
                } else if j == before.len() {
                    assert(!same_path(before[i], r));
                } else {
                    assert(after[i] == before[i] && after[j] == before[j]);
                }
            }
        }
        assert(after.no_duplicates()) by {
            assert forall|i: int, j: int|
                0 <= i < after.len() && 0 <= j < after.len() && i != j implies after[i]
                != after[j] by {
                assert(!same_path(after[i], after[j]));
            }
        }
        assert forall|y: Seq<u8>|
            #[trigger] after.to_set().contains(y) <==> before.to_set().insert(r).contains(y) by {
            if before.contains(y) {
                let k = choose|k: int| 0 <= k < before.len() && before[k] == y;
                assert(after[k] == y);
            }
            if y == r {
                assert(after[before.len() as int] == y);
            }
        }
        assert(after.to_set() =~= before.to_set().insert(r));
        self.roots = roots;
        proof {
            byte_vec_views(self.roots@).unique_seq_to_set();
            seq_to_set_is_finite(byte_vec_views(self.roots@));
        }
        Ok(())
    }
}

/// The outcome of resolving a file below a root, given the outcomes of
/// canonicalizing the root and the file.
pub open spec fn canonical_child_outcome(
    root: Result<Seq<u8>, Seq<char>>,
    child: Result<Seq<u8>, Seq<char>>,
) -> Result<Seq<u8>, Seq<char>> {
    match root {
        Err(e) => Err(root_unavailable_message(e)),
        Ok(r) => match child {
            Err(e) => Err(file_unavailable_message(e)),
            Ok(c) => if path_starts_with(c, r) {
                Ok(c)
            } else {
                Err(outside_root_message())
            },
        },
    }
}

/// Resolves a file below a root: `root` and `child` are the outcomes of
/// canonicalizing them. The canonical file is returned when its path lies
/// below the canonical root, whole components compared. When the root
/// cannot be resolved, `child` is not looked at.
pub fn canonical_child(root: Result<Vec<u8>, String>, child: Result<Vec<u8>, String>) -> (r: Result<
    Vec<u8>,
    String,
>)
    ensures
        path_result(r) == canonical_child_outcome(path_result(root), path_result(child)),
{
    let root = match root {
        Ok(r) => r,
        Err(e) => {
            return Err(message_with("Suchort ist nicht verfügbar: ", &e));
        },
    };
    let child = match child {
        Ok(c) => c,
        Err(e) => {
            return Err(message_with("Datei ist nicht verfügbar: ", &e));
        },
    };
    if !path_starts_with_exec(child.as_slice(), root.as_slice()) {
        return Err(String::from_str("Die Datei liegt außerhalb des freigegebenen Suchorts."));
    }
    Ok(child)
}

/// The outcome of validating a file for opening, given the outcomes of each
/// file-system step in the order they are taken.
pub open spec fn validated_file_outcome(
    released: Set<Seq<u8>>,
    root: Result<Seq<u8>, Seq<char>>,
    child_root: Result<Seq<u8>, Seq<char>>,
    child: Result<Seq<u8>, Seq<char>>,
    child_is_file: bool,
) -> Result<Seq<u8>, Seq<char>> {
    match root {
        Err(e) => Err(root_unavailable_message(e)),
        Ok(r) => if !holds_path(released, r) {
            Err(root_not_released_message())
        } else {
            match canonical_child_outcome(child_root, child) {
                Err(e) => Err(e),
                Ok(c) => if child_is_file {
                    Ok(c)
                } else {
                    Err(file_gone_message())
                },
            }
        },
    }
}

/// Validates a file that the user wants to open or reveal. `root` is the
/// outcome of canonicalizing the requested root; `child_root` and `child`
/// are those of canonicalizing the root and the file again for the
/// containment check; `child_is_file` whether the resolved file is a regular
/// file. A step that is not reached is not looked at.
pub fn validated_allowed_file(
    allowed_roots: &AllowedRoots,
    root: Result<Vec<u8>, String>,
    child_root: Result<Vec<u8>, String>,
    child: Result<Vec<u8>, String>,
    child_is_file: bool,
) -> (r: Result<Vec<u8>, String>)
    ensures
        path_result(r) == validated_file_outcome(
            allowed_roots.roots(),
            path_result(root),
            path_result(child_root),
            path_result(child),
            child_is_file,
        ),
{
    let root = match root {
        Ok(r) => r,
        Err(e) => {
            return Err(message_with("Suchort ist nicht verfügbar: ", &e));
        },
    };
    if !allowed_roots.contains(&root) {
        return Err(String::from_str("Der Suchort wurde in dieser Sitzung nicht freigegeben."));
    }
    let validated = canonical_child(child_root, child)?;
    if !child_is_file {
        return Err(String::from_str("Die ausgewählte Datei ist nicht mehr vorhanden."));
    }
    Ok(validated)
}

/// The outcome of releasing a picked folder, given the outcome of
/// canonicalizing it and whether it is a directory.
pub open spec fn admitted_root_outcome(
    released: Set<Seq<u8>>,
    picked: Seq<char>,
    canonical: Result<Seq<u8>, Seq<char>>,
    is_dir: bool,
) -> Result<Seq<char>, Seq<char>> {
    match canonical {
        Err(e) => Err(root_unopenable_message(e)),
        Ok(c) => if !is_dir {
            Err(not_a_directory_message())
        } else if !holds_path(released, c) && released.len() >= MAX_ROOTS {
            Err(too_many_roots_message())
        } else {
            Ok(picked)
        },
    }
}

/// Releases a folder that the user picked: `picked` is the path as the
/// user sees it, `canonical` the outcome of canonicalizing it, `is_dir`
/// whether it is a directory. On success the canonical folder is released
/// and the picked path is returned as it was given. At most one root is
/// added, none is taken away, the registry never holds more than
/// `MAX_ROOTS`, and a refusal leaves it as it was.
pub fn admit_search_root(
    allowed_roots: &mut AllowedRoots,
    picked: String,
    canonical: Result<Vec<u8>, String>,
    is_dir: bool,
) -> (r: Result<String, String>)
    ensures
        text_result(r) == admitted_root_outcome(
            old(allowed_roots).roots(),
            picked@,
            path_result(canonical),
            is_dir,
        ),
        final(allowed_roots).roots() == (match (r, canonical) {
            (Ok(_), Ok(c)) => if holds_path(old(allowed_roots).roots(), c@) {
                old(allowed_roots).roots()
            } else {
                old(allowed_roots).roots().insert(c@)
            },
            _ => old(allowed_roots).roots(),
        }),
        old(allowed_roots).roots().finite(),
        final(allowed_roots).roots().finite(),
        old(allowed_roots).roots().subset_of(final(allowed_roots).roots()),
        final(allowed_roots).roots().len() <= old(allowed_roots).roots().len() + 1,
        final(allowed_roots).roots().len() <= MAX_ROOTS,
        r is Err ==> final(allowed_roots).roots() == old(allowed_roots).roots(),
{
    let ghost before = allowed_roots.roots();
    let _ = allowed_roots.len();
    let canonical = match canonical {
        Ok(c) => c,
        Err(e) => {
            return Err(message_with("Suchort kann nicht geöffnet werden: ", &e));
        },
    };
    if !is_dir {
        return Err(String::from_str("Der gewählte Suchort ist kein Ordner."));
    }
    let ghost c = canonical@;
    match allowed_roots.register(canonical) {
        Ok(()) => {
            proof {
                if !before.contains(c) {
                    vstd::set::axiom_set_insert_len(before, c);
                }
            }
            Ok(picked)
        },
        Err(e) => Err(e),
    }
}

/// A file is only ever validated inside a released root: the root is the
/// same path as a root released in this session, the file lies below the
/// root as canonicalized for the containment check, and it is a regular
/// file. When both canonicalizations of the root agree, the file lies below
/// a released root itself.
pub proof fn lemma_validated_file_is_inside_released_root(
    released: Set<Seq<u8>>,
    root: Result<Seq<u8>, Seq<char>>,
    child_root: Result<Seq<u8>, Seq<char>>,
    child: Result<Seq<u8>, Seq<char>>,
    child_is_file: bool,
    file: Seq<u8>,
)
    requires
        validated_file_outcome(released, root, child_root, child, child_is_file) == Ok::<
            Seq<u8>,
            Seq<char>,
        >(file),
    ensures
        root is Ok && holds_path(released, root->Ok_0),
        child_root is Ok && path_starts_with(file, child_root->Ok_0),
        child == Ok::<Seq<u8>, Seq<char>>(file),
        child_is_file,
        child_root == root ==> exists|x: Seq<u8>|
            #[trigger] released.contains(x) && path_starts_with(file, x),
{
    if child_root == root {
        let r = root->Ok_0;
        let x = choose|x: Seq<u8>| #[trigger] released.contains(x) && same_path(x, r);
        assert(path_starts_with(file, x));
    }
}

/// A root that is not the same path as any released root is refused,
/// whatever the file.
pub proof fn lemma_unreleased_root_is_refused(
    released: Set<Seq<u8>>,
    root: Seq<u8>,
    child_root: Result<Seq<u8>, Seq<char>>,
    child: Result<Seq<u8>, Seq<char>>,
    child_is_file: bool,
)
    requires
        !holds_path(released, root),
    ensures
        validated_file_outcome(released, Ok(root), child_root, child, child_is_file) == Err::<
            Seq<u8>,
            Seq<char>,
        >(root_not_released_message()),
{
}

} // verus!
