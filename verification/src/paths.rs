//! A model of Unix path components, as `std::path::Path::components`
//! documents them, and the component-wise prefix test and final name that
//! the root checks and file entries are built on. A path is held as the
//! bytes of its encoding, as `OsStr::as_encoded_bytes` gives them; two
//! paths are the same when their components are equal byte for byte, as
//! `Path` equality has it.
use vstd::prelude::*;

verus! {

/// The byte of the path separator `/`.
pub const SEPARATOR: u8 = 0x2f;

/// The byte of `.`.
pub const DOT: u8 = 0x2e;

/// The views of a sequence of byte vectors.
pub open spec fn byte_vec_views(v: Seq<Vec<u8>>) -> Seq<Seq<u8>> {
    v.map_values(|w: Vec<u8>| w@)
}

/// The pieces of `s` between `/` separators, empty pieces included, as
/// splitting at the byte `/` yields them.
pub open spec fn pieces(s: Seq<u8>) -> Seq<Seq<u8>>
    decreases s.len(),
{
    if s.len() == 0 {
        seq![Seq::empty()]
    } else {
        let prev = pieces(s.drop_last());
        if s.last() == SEPARATOR {
            prev.push(Seq::empty())
        } else {
            prev.update(prev.len() - 1, prev.last().push(s.last()))
        }
    }
}

/// A piece that stands as a component: not empty and not `.`.
pub open spec fn is_component_piece(p: Seq<u8>) -> bool {
    p.len() > 0 && p != seq![DOT]
}

/// Whether `s` starts at the root directory.
pub open spec fn has_root(s: Seq<u8>) -> bool {
    s.len() > 0 && s[0] == SEPARATOR
}

/// Whether `s` is relative and starts with a `.` component, which
/// `Path::components` keeps as a leading `CurDir`.
pub open spec fn has_leading_cur_dir(s: Seq<u8>) -> bool {
    &&& !has_root(s)
    &&& s.len() > 0
    &&& s[0] == DOT
    &&& (s.len() == 1 || s[1] == SEPARATOR)
}

/// The components of the path `s`: `/` stands for the root directory, `.`
/// for a leading current directory, every other component is its text.
/// Repeated separators, trailing separators and inner `.` components are
/// normalized away; nothing else is.
pub open spec fn components(s: Seq<u8>) -> Seq<Seq<u8>> {
    let root: Seq<Seq<u8>> = if has_root(s) {
        seq![seq![SEPARATOR]]
    } else {
        Seq::empty()
    };
    let cur: Seq<Seq<u8>> = if has_leading_cur_dir(s) {
        seq![seq![DOT]]
    } else {
        Seq::empty()
    };
    root + cur + pieces(s).filter(|p: Seq<u8>| is_component_piece(p))
}

/// Whether the path `child` starts with the path `base`: the components of
/// `base` are the first components of `child`, whole components only.
pub open spec fn path_starts_with(child: Seq<u8>, base: Seq<u8>) -> bool {
    let c = components(child);
    let b = components(base);
    b.len() <= c.len() && c.take(b.len() as int) =~= b
}

/// A component that names a file or directory: not the root, not `.`, not `..`.
pub open spec fn is_name_component(p: Seq<u8>) -> bool {
    p != seq![SEPARATOR] && p != seq![DOT] && p != seq![DOT, DOT] && p.len() > 0
}

/// The final component of `s` when it names something, as
/// `Path::file_name` returns it.
pub open spec fn file_name_of(s: Seq<u8>) -> Option<Seq<u8>> {
    let c = components(s);
    if c.len() > 0 && is_name_component(c.last()) {
        Some(c.last())
    } else {
        None
    }
}

/// The extension of a file name, as `Path::extension` defines it: the text
/// after the last `.`, unless there is no `.` or the only one comes first.
pub open spec fn extension_of_name(name: Seq<u8>) -> Option<Seq<u8>> {
    if name == seq![DOT, DOT] {
        None
    } else if exists|i: int| 0 < i < name.len() && name[i] == DOT {
        let k = choose|i: int|
            0 < i < name.len() && name[i] == DOT && forall|j: int|
                i < j < name.len() ==> name[j] != DOT;
        Some(name.subrange(k + 1, name.len() as int))
    } else {
        None
    }
}

/// Whether two byte vectors hold the same bytes.
pub fn bytes_equal(a: &Vec<u8>, b: &Vec<u8>) -> (r: bool)
    ensures
        r == (a@ == b@),
{
    if a.len() != b.len() {
        return false;
    }
    let n = a.len();
    let mut i: usize = 0;
    while i < n
        invariant
            n == a@.len(),
            n == b@.len(),
            i <= n,
            forall|j: int| 0 <= j < i ==> a@[j] == b@[j],
        decreases n - i,
    {
        if a[i] != b[i] {
            return false;
        }
        i = i + 1;
    }
    assert(a@ =~= b@);
    true
}

fn is_component_piece_exec(p: &Vec<u8>) -> (r: bool)
    ensures
        r == is_component_piece(p@),
{
    if p.len() == 0 {
        return false;
    }
    if p.len() == 1 && p[0] == DOT {
        assert(p@ =~= seq![DOT]);
        return false;
    }
    assert(p@ != seq![DOT]) by {
        if p@ == seq![DOT] {
            assert(p@.len() == 1);
        }
    }
    true
}

/// The components of the path `s`.
pub fn path_components(s: &[u8]) -> (out: Vec<Vec<u8>>)
    ensures
        byte_vec_views(out@) == components(s@),
{
    let n = s.len();
    let mut done: Vec<Vec<u8>> = Vec::new();
    let ghost root: Seq<Seq<u8>> = if has_root(s@) {
        seq![seq![SEPARATOR]]
    } else {
        Seq::empty()
    };
    let ghost cd: Seq<Seq<u8>> = if has_leading_cur_dir(s@) {
        seq![seq![DOT]]
    } else {
        Seq::empty()
    };
    if n > 0 && s[0] == SEPARATOR {
        let mut r: Vec<u8> = Vec::new();
        r.push(SEPARATOR);
        done.push(r);
        assert(byte_vec_views(done@) =~= root + cd);
    } else if n > 0 && s[0] == DOT && (n == 1 || s[1] == SEPARATOR) {
        let mut r: Vec<u8> = Vec::new();
        r.push(DOT);
        done.push(r);
        assert(byte_vec_views(done@) =~= root + cd);
    } else {
        assert(byte_vec_views(done@) =~= root + cd);
    }
    let ghost lead = byte_vec_views(done@);
    let mut cur: Vec<u8> = Vec::new();
    let mut i: usize = 0;
    assert(s@.take(0) =~= Seq::<u8>::empty());
    assert(pieces(s@.take(0)) =~= seq![Seq::<u8>::empty()]);
    proof {
        reveal_with_fuel(Seq::<_>::filter, 1);
        assert(pieces(s@.take(0)).drop_last() =~= Seq::<Seq<u8>>::empty());
    }
    while i < n
        invariant
            n == s@.len(),
            i <= n,
            lead.len() <= byte_vec_views(done@).len(),
            byte_vec_views(done@) =~= lead + pieces(s@.take(i as int)).drop_last().filter(
                |p: Seq<u8>| is_component_piece(p),
            ),
            cur@ == pieces(s@.take(i as int)).last(),
            pieces(s@.take(i as int)).len() >= 1,
        decreases n - i,
    {
        let c = s[i];
        let ghost prev = pieces(s@.take(i as int));
        assert(s@.take(i + 1).drop_last() =~= s@.take(i as int));
        assert(s@.take(i + 1).last() == c);
        if c == SEPARATOR {
            let ghost old_done = byte_vec_views(done@);
            assert(pieces(s@.take(i + 1)) == prev.push(Seq::empty()));
            assert(prev.push(Seq::<u8>::empty()).drop_last() =~= prev);
            assert(prev =~= prev.drop_last().push(prev.last()));
            proof {
                reveal_with_fuel(Seq::<_>::filter, 1);
            }
            if is_component_piece_exec(&cur) {
                let w = cur;
                cur = Vec::new();
                done.push(w);
                assert(byte_vec_views(done@) =~= old_done.push(prev.last()));
            } else {
                cur = Vec::new();
                assert(byte_vec_views(done@) =~= old_done);
            }
            assert((lead + prev.drop_last().filter(|p: Seq<u8>| is_component_piece(p))).push(
                prev.last(),
            ) =~= lead + prev.drop_last().filter(|p: Seq<u8>| is_component_piece(p)).push(
                prev.last(),
            ));
            assert(cur@ =~= Seq::<u8>::empty());
        } else {
            cur.push(c);
            let ghost next = prev.update(prev.len() - 1, prev.last().push(c));
            assert(pieces(s@.take(i + 1)) == next);
            assert(next.drop_last() =~= prev.drop_last());
        }
        i = i + 1;
    }
    assert(s@.take(n as int) =~= s@);
    let ghost all = pieces(s@);
    assert(all =~= all.drop_last().push(all.last()));
    proof {
        reveal_with_fuel(Seq::<_>::filter, 1);
    }
    let ghost before = byte_vec_views(done@);
    if is_component_piece_exec(&cur) {
        done.push(cur);
        assert(byte_vec_views(done@) =~= before.push(all.last()));
    }
    assert(lead + all.drop_last().filter(|p: Seq<u8>| is_component_piece(p)).push(all.last())
        =~= (lead + all.drop_last().filter(|p: Seq<u8>| is_component_piece(p))).push(
        all.last(),
    ));
    done
}

/// Whether the path `child` starts with the path `base`, comparing whole
/// components, as `Path::starts_with` does.
pub fn path_starts_with_exec(child: &[u8], base: &[u8]) -> (r: bool)
    ensures
        r == path_starts_with(child@, base@),
{
    let c = path_components(child);
    let b = path_components(base);
    if b.len() > c.len() {
        return false;
    }
    let n = b.len();
    let mut i: usize = 0;
    while i < n
        invariant
            n == b@.len(),
            n <= c@.len(),
            i <= n,
            byte_vec_views(b@) == components(base@),
            byte_vec_views(c@) == components(child@),
            forall|j: int| 0 <= j < i ==> components(child@)[j] == components(base@)[j],
        decreases n - i,
    {
        if !bytes_equal(&c[i], &b[i]) {
            assert(components(child@)[i as int] != components(base@)[i as int]) by {
                assert(byte_vec_views(c@)[i as int] == c@[i as int]@);
                assert(byte_vec_views(b@)[i as int] == b@[i as int]@);
            }
            assert(components(child@).take(n as int)[i as int] != components(base@)[i as int]);
            return false;
        }
        assert(byte_vec_views(c@)[i as int] == c@[i as int]@);
        assert(byte_vec_views(b@)[i as int] == b@[i as int]@);
        i = i + 1;
    }
    assert(components(child@).take(n as int) =~= components(base@));
    true
}

fn is_name_component_exec(p: &Vec<u8>) -> (r: bool)
    ensures
        r == is_name_component(p@),
{
    if p.len() == 0 {
        return false;
    }
    if p.len() == 1 && (p[0] == SEPARATOR || p[0] == DOT) {
        assert(p@ =~= seq![p@[0]]);
        return false;
    }
    if p.len() == 2 && p[0] == DOT && p[1] == DOT {
        assert(p@ =~= seq![DOT, DOT]);
        return false;
    }
    assert(p@ != seq![SEPARATOR] && p@ != seq![DOT] && p@ != seq![DOT, DOT]) by {
        if p@ == seq![SEPARATOR] || p@ == seq![DOT] {
            assert(p@.len() == 1 && p@[0] == seq![SEPARATOR][0] || p@[0] == seq![DOT][0]);
        }
        if p@ == seq![DOT, DOT] {
            assert(p@.len() == 2 && p@[0] == DOT && p@[1] == DOT);
        }
    }
    true
}

/// The final component of `path` when it names something.
pub fn file_name(path: &[u8]) -> (r: Option<Vec<u8>>)
    ensures
        r matches Some(name) ==> file_name_of(path@) == Some(name@),
        r is None ==> file_name_of(path@) is None,
{
    let mut c = path_components(path);
    let n = c.len();
    if n > 0 && is_name_component_exec(&c[n - 1]) {
        assert(byte_vec_views(c@)[n - 1] == c@[n - 1]@);
        c.pop()
    } else {
        proof {
            if n > 0 {
                assert(byte_vec_views(c@)[n - 1] == c@[n - 1]@);
            }
        }
        None
    }
}

/// The extension of a file name.
pub fn name_extension(name: &[u8]) -> (r: Option<Vec<u8>>)
    ensures
        r matches Some(e) ==> extension_of_name(name@) == Some(e@),
        r is None ==> extension_of_name(name@) is None,
{
    let v = name;
    let n = v.len();
    if n == 2 && v[0] == DOT && v[1] == DOT {
        assert(name@ =~= seq![DOT, DOT]);
        return None;
    }
    let mut k: usize = n;
    while k > 0
        invariant
            n == v@.len(),
            v@ == name@,
            k <= n,
            forall|j: int| k <= j < n ==> v@[j] != DOT,
        ensures
            k <= n,
            forall|j: int| k <= j < n ==> v@[j] != DOT,
            k == 0 || v@[k - 1] == DOT,
        decreases k,
    {
        if v[k - 1] == DOT {
            break;
        }
        k = k - 1;
    }
    if k <= 1 {
        assert(!exists|i: int| 0 < i < name@.len() && name@[i] == DOT);
        return None;
    }
    let dot = k - 1;
    assert(name@[dot as int] == DOT);
    assert(forall|j: int| dot < j < n ==> name@[j] != DOT) by {
        assert(forall|j: int| k <= j < n ==> v@[j] != DOT);
    }
    let ghost chosen = choose|i: int|
        0 < i < name@.len() && name@[i] == DOT && forall|j: int|
            i < j < name@.len() ==> name@[j] != DOT;
    assert(chosen == dot) by {
        if chosen < dot {
            assert(name@[dot as int] != DOT);
        } else if chosen > dot {
            assert(name@[chosen] != DOT);
        }
    }
    let mut ext: Vec<u8> = Vec::new();
    let mut i: usize = k;
    while i < n
        invariant
            n == v@.len(),
            k <= i <= n,
            ext@ == v@.subrange(k as int, i as int),
        decreases n - i,
    {
        ext.push(v[i]);
        assert(v@.subrange(k as int, i + 1) =~= v@.subrange(k as int, i as int).push(v@[i as int]));
        i = i + 1;
    }
    Some(ext)
}

/// Whether `a` and `b` are the same path: they have the same components,
/// which is how `Path` compares paths for equality.
pub open spec fn same_path(a: Seq<u8>, b: Seq<u8>) -> bool {
    components(a) == components(b)
}

/// Whether `a` and `b` are the same path, compared component by component.
pub fn same_path_exec(a: &[u8], b: &[u8]) -> (r: bool)
    ensures
        r == same_path(a@, b@),
{
    let ab = path_starts_with_exec(a, b);
    let ba = path_starts_with_exec(b, a);
    proof {
        if ab && ba {
            lemma_starts_with_antisymmetric(a@, b@);
        }
        if same_path(a@, b@) {
            lemma_starts_with_reflexive(a@);
            lemma_starts_with_reflexive(b@);
        }
    }
    ab && ba
}

/// Every path starts with itself.
pub proof fn lemma_starts_with_reflexive(p: Seq<u8>)
    ensures
        path_starts_with(p, p),
{
    assert(components(p).take(components(p).len() as int) =~= components(p));
}

/// A path below a path below a root is below that root.
pub proof fn lemma_starts_with_transitive(a: Seq<u8>, b: Seq<u8>, c: Seq<u8>)
    requires
        path_starts_with(a, b),
        path_starts_with(b, c),
    ensures
        path_starts_with(a, c),
{
    let ca = components(a);
    let cb = components(b);
    let cc = components(c);
    assert(ca.take(cc.len() as int) =~= cc) by {
        assert forall|i: int| 0 <= i < cc.len() implies ca.take(cc.len() as int)[i] == cc[i] by {
            assert(cb.take(cc.len() as int)[i] == cc[i]);
            assert(ca.take(cb.len() as int)[i] == cb[i]);
        }
    }
}

/// Two paths that start with each other have the same components.
pub proof fn lemma_starts_with_antisymmetric(a: Seq<u8>, b: Seq<u8>)
    requires
        path_starts_with(a, b),
        path_starts_with(b, a),
    ensures
        components(a) == components(b),
{
    assert(components(a) =~= components(a).take(components(b).len() as int));
}

} // verus!
