use vstd::prelude::*;
use vstd::utf8::valid_utf8;
use crate::errors::SbError;
use crate::search::subvec;
use crate::tarball::{tar_append_dir, tar_append_file, tar_bytes_of, tar_entries, tar_finish,
    tar_new, tar_parse_of};

verus! {

/// An archive entry as the contracts see it: a relative name, and file
/// bytes or a directory mark.
pub type EntryV = (Seq<u8>, Option<Seq<u8>>);

/// A `.` path component starts at `i`.
pub open spec fn dot_component_at(name: Seq<u8>, i: int) -> bool {
    &&& 0 <= i < name.len()
    &&& (i == 0 || name[i - 1] == 47)
    &&& name[i] == 46
    &&& (i + 1 == name.len() || name[i + 1] == 47)
}

/// A `..` path component starts at `i`.
pub open spec fn dotdot_component_at(name: Seq<u8>, i: int) -> bool {
    &&& 0 <= i && i + 1 < name.len()
    &&& (i == 0 || name[i - 1] == 47)
    &&& name[i] == 46
    &&& name[i + 1] == 46
    &&& (i + 2 == name.len() || name[i + 2] == 47)
}

/// A name that is safe to store in the archive: nonempty and relative,
/// with no empty, `.` or `..` component and no stray byte that the tar
/// name fields cannot carry back unchanged.
pub open spec fn clean_rel_path(name: Seq<u8>) -> bool {
    &&& 0 < name.len()
    &&& name[0] != 47
    &&& name[name.len() - 1] != 47
    &&& forall|i: int| 0 <= i < name.len() ==> name[i] != 0
    &&& forall|i: int| 0 < i < name.len() ==> !(name[i - 1] == 47 && #[trigger] name[i] == 47)
    &&& forall|i: int| !dot_component_at(name, i)
    &&& forall|i: int| !dotdot_component_at(name, i)
}

/// Check that `name` is a clean relative archive name.
pub fn is_clean_rel_path(name: &Vec<u8>) -> (r: bool)
    ensures
        r == clean_rel_path(name@),
{
    let n = name.len();
    if n == 0 {
        return false;
    }
    if name[0] == 47 {
        return false;
    }
    if name[n - 1] == 47 {
        return false;
    }
    let mut i: usize = 0;
    while i < n
        invariant
            n == name@.len(),
            0 < n,
            i <= n,
            name@[0] != 47,
            name@[n - 1] != 47,
            forall|j: int| 0 <= j < i ==> name@[j] != 0,
            forall|j: int| 0 < j < i ==> !(name@[j - 1] == 47 && #[trigger] name@[j] == 47),
            forall|j: int| 0 <= j < i ==> !dot_component_at(name@, j),
            forall|j: int| 0 <= j < i ==> !dotdot_component_at(name@, j),
        decreases n - i,
    {
        if name[i] == 0 {
            return false;
        }
        if i > 0 && name[i - 1] == 47 && name[i] == 47 {
            return false;
        }
        let at_start = i == 0 || name[i - 1] == 47;
        if at_start && name[i] == 46 {
            if i + 1 == n || name[i + 1] == 47 {
                assert(dot_component_at(name@, i as int));
                return false;
            }
            if name[i + 1] == 46 && (i + 2 == n || name[i + 2] == 47) {
                assert(dotdot_component_at(name@, i as int));
                return false;
            }
        }
        i = i + 1;
    }
    true
}

/// How many leading slash bytes `s` carries.
pub open spec fn leading_slashes(s: Seq<u8>) -> int
    decreases s.len(),
{
    if s.len() == 0 || s[0] != 47 {
        0
    } else {
        1 + leading_slashes(s.drop_first())
    }
}

/// The leading-slash count is a valid index bound, everything before it
/// is a slash, and the byte at it (if any) is not.
pub proof fn lemma_leading_slashes(s: Seq<u8>)
    ensures
        0 <= leading_slashes(s) <= s.len(),
        forall|j: int| 0 <= j < leading_slashes(s) ==> s[j] == 47,
        leading_slashes(s) == s.len() || s[leading_slashes(s)] != 47,
    decreases s.len(),
{
    if s.len() > 0 && s[0] == 47 {
        let t = s.drop_first();
        lemma_leading_slashes(t);
        assert forall|j: int| 0 <= j < leading_slashes(s) implies s[j] == 47 by {
            if j > 0 {
                assert(t[j - 1] == s[j]);
                assert(t[j - 1] == 47);
            }
        }
        if leading_slashes(t) < t.len() {
            assert(s[1 + leading_slashes(t)] == t[leading_slashes(t)]);
        }
    }
}

/// `path` lies strictly under the directory `pwd`.
pub open spec fn is_under(path: Seq<u8>, pwd: Seq<u8>) -> bool {
    &&& pwd.len() < path.len()
    &&& path.take(pwd.len() as int) == pwd
    &&& path[pwd.len() as int] == 47
}

/// The archive-internal name for a source path: a relative path is kept
/// as supplied; an absolute path loses the working-directory prefix when
/// it lies under it, and its leading root separators otherwise.
pub open spec fn relativize_spec(path: Seq<u8>, pwd: Seq<u8>) -> Seq<u8> {
    if path.len() == 0 || path[0] != 47 {
        path
    } else if path == pwd {
        Seq::empty()
    } else if is_under(path, pwd) {
        path.skip(pwd.len() as int + 1)
    } else {
        path.skip(leading_slashes(path))
    }
}

/// Fresh copy of the bytes of `v`.
pub fn copy_bytes(v: &Vec<u8>) -> (r: Vec<u8>)
    ensures
        r@ == v@,
{
    let r = subvec(v, 0, v.len());
    proof {
        assert(v@.subrange(0, v@.len() as int) =~= v@);
    }
    r
}

/// Whether the bytes of `p` open the bytes of `v`.
fn is_prefix(v: &Vec<u8>, p: &Vec<u8>) -> (r: bool)
    ensures
        r == (p@.len() <= v@.len() && v@.take(p@.len() as int) == p@),
{
    let pn = p.len();
    let vn = v.len();
    if pn > vn {
        return false;
    }
    let mut k: usize = 0;
    while k < pn
        invariant
            pn == p@.len(),
            vn == v@.len(),
            pn <= vn,
            k <= pn,
            forall|m: int| 0 <= m < k ==> v@[m] == p@[m],
        decreases pn - k,
    {
        if v[k] != p[k] {
            proof {
                assert(v@.take(pn as int)[k as int] == v@[k as int]);
            }
            return false;
        }
        k = k + 1;
    }
    proof {
        assert(v@.take(pn as int) =~= p@);
    }
    true
}

/// Turn one source path into its archive-internal name.
pub fn relativize(path: &Vec<u8>, pwd: &Vec<u8>) -> (r: Vec<u8>)
    ensures
        r@ == relativize_spec(path@, pwd@),
{
    let n = path.len();
    if n == 0 || path[0] != 47 {
        return copy_bytes(path);
    }
    if is_prefix(path, pwd) {
        if n == pwd.len() {
            proof {
                assert(path@ =~= pwd@);
            }
            let r: Vec<u8> = Vec::new();
            return r;
        }
        if path[pwd.len()] == 47 {
            let r = subvec(path, pwd.len() + 1, n);
            proof {
                assert(path@.skip(pwd@.len() as int + 1) =~= path@.subrange(
                    pwd@.len() as int + 1,
                    n as int,
                ));
            }
            return r;
        }
    }
    let mut k: usize = 0;
    while k < n && path[k] == 47
        invariant
            n == path@.len(),
            k <= n,
            forall|j: int| 0 <= j < k ==> path@[j] == 47,
        decreases n - k,
    {
        k = k + 1;
    }
    proof {
        if path@ == pwd@ {
            assert(pwd@.len() <= path@.len());
            assert(path@.take(pwd@.len() as int) =~= pwd@);
        }
        assert(path@ != pwd@);
        assert(!is_under(path@, pwd@));
        lemma_leading_slashes(path@);
        let ls = leading_slashes(path@);
        if k < ls {
            assert(path@[k as int] == 47);
            assert(false);
        }
        if ls < k {
            assert(path@[ls] == 47);
            assert(false);
        }
        assert(path@.skip(k as int) =~= path@.subrange(k as int, n as int));
    }
    subvec(path, k, n)
}

/// The archive name for one source path, or the error it earns.
pub open spec fn plan_name(path: Seq<u8>, pwd: Seq<u8>) -> Result<Seq<u8>, SbError> {
    let name = relativize_spec(path, pwd);
    if clean_rel_path(name) {
        Result::Ok(name)
    } else {
        Result::Err(SbError::PathEscapesRelativeBase)
    }
}

/// Compute and check the archive name for one source path.
pub fn archive_name(path: &Vec<u8>, pwd: &Vec<u8>) -> (r: Result<Vec<u8>, SbError>)
    ensures
        match r {
            Ok(v) => plan_name(path@, pwd@) matches Ok(s) && v@ == s,
            Err(e) => plan_name(path@, pwd@) == Err::<Seq<u8>, SbError>(e),
        },
{
    let name = relativize(path, pwd);
    if is_clean_rel_path(&name) {
        Ok(name)
    } else {
        Err(SbError::PathEscapesRelativeBase)
    }
}

/// One descendant of a directory source, as the walk reported it.
pub struct DirChild {
    /// Path relative to the directory being archived, slash-separated.
    pub rel_path: Vec<u8>,
    /// File bytes; a subdirectory when absent.
    pub content: Option<Vec<u8>>,
}

/// What one caller-supplied path turned out to be on disk, with the data
/// the archiver needs from it.
pub enum SourceKind {
    /// The path names nothing that can be archived.
    Missing,
    /// A regular file and its bytes.
    File { content: Vec<u8> },
    /// A directory and its descendants in traversal order.
    Dir { children: Vec<DirChild> },
}

/// One caller-supplied source path together with what was found there.
pub struct SourceItem {
    /// The path as supplied, slash-separated.
    pub path: Vec<u8>,
    /// What the path names.
    pub kind: SourceKind,
}

/// One materialized archive entry.
pub struct Entry {
    /// Clean relative name inside the archive.
    pub name: Vec<u8>,
    /// File bytes; a directory entry when absent.
    pub content: Option<Vec<u8>>,
}

/// The mathematical reading of one entry.
pub open spec fn entry_view(e: Entry) -> EntryV {
    (
        e.name@,
        match e.content {
            Option::Some(c) => Option::Some(c@),
            Option::None => Option::None,
        },
    )
}

/// The mathematical reading of an entry list.
pub open spec fn entries_view(s: Seq<Entry>) -> Seq<EntryV> {
    s.map_values(|e: Entry| entry_view(e))
}

/// The entry one directory descendant contributes, under `base`.
pub open spec fn child_entry(base: Seq<u8>, c: DirChild) -> EntryV {
    (
        base + seq![47u8] + c.rel_path@,
        match c.content {
            Option::Some(v) => Option::Some(v@),
            Option::None => Option::None,
        },
    )
}

/// The name the entry of one directory descendant carries.
pub open spec fn child_name(base: Seq<u8>, c: DirChild) -> Seq<u8> {
    base + seq![47u8] + c.rel_path@
}

/// The entries a directory's descendants contribute, or the error the
/// first unusable descendant name earns.
pub open spec fn plan_children(base: Seq<u8>, kids: Seq<DirChild>) -> Result<
    Seq<EntryV>,
    SbError,
>
    decreases kids.len(),
{
    if kids.len() == 0 {
        Result::Ok(Seq::empty())
    } else if !clean_rel_path(child_name(base, kids[0])) {
        Result::Err(SbError::PathEscapesRelativeBase)
    } else {
        match plan_children(base, kids.drop_first()) {
            Result::Ok(rest) => Result::Ok(seq![child_entry(base, kids[0])] + rest),
            Result::Err(e) => Result::Err(e),
        }
    }
}

/// The entries one source contributes, or the error it earns.
pub open spec fn plan_one(src: SourceItem, pwd: Seq<u8>) -> Result<Seq<EntryV>, SbError> {
    match src.kind {
        SourceKind::Missing => Result::Err(SbError::PathNotFound),
        SourceKind::File { content } => match plan_name(src.path@, pwd) {
            Result::Ok(name) => Result::Ok(seq![(name, Option::Some(content@))]),
            Result::Err(e) => Result::Err(e),
        },
        SourceKind::Dir { children } => match plan_name(src.path@, pwd) {
            Result::Ok(name) => match plan_children(name, children@) {
                Result::Ok(ces) => Result::Ok(
                    seq![(name, Option::None::<Seq<u8>>)] + ces,
                ),
                Result::Err(e) => Result::Err(e),
            },
            Result::Err(e) => Result::Err(e),
        },
    }
}

/// The whole archive plan: the entries of all sources in order, or the
/// first error among them.
pub open spec fn plan_entries(srcs: Seq<SourceItem>, pwd: Seq<u8>) -> Result<
    Seq<EntryV>,
    SbError,
>
    decreases srcs.len(),
{
    if srcs.len() == 0 {
        Result::Ok(Seq::empty())
    } else {
        match plan_one(srcs[0], pwd) {
            Result::Err(e) => Result::Err(e),
            Result::Ok(es) => match plan_entries(srcs.drop_first(), pwd) {
                Result::Err(e) => Result::Err(e),
                Result::Ok(rest) => Result::Ok(es + rest),
            },
        }
    }
}

/// Planning a concatenation of descendant lists: the first error wins,
/// else the entries follow in order.
pub proof fn lemma_plan_children_concat(base: Seq<u8>, a: Seq<DirChild>, b: Seq<DirChild>)
    ensures
        plan_children(base, a + b) == (match plan_children(base, a) {
            Result::Ok(acc) => match plan_children(base, b) {
                Result::Ok(rest) => Result::Ok::<Seq<EntryV>, SbError>(acc + rest),
                Result::Err(e) => Result::Err(e),
            },
            Result::Err(e) => Result::Err(e),
        }),
    decreases a.len(),
{
    if a.len() == 0 {
        assert(a + b =~= b);
        match plan_children(base, b) {
            Result::Ok(rest) => {
                assert(Seq::<EntryV>::empty() + rest =~= rest);
            },
            Result::Err(e) => {},
        }
    } else {
        assert((a + b)[0] == a[0]);
        assert((a + b).drop_first() =~= a.drop_first() + b);
        lemma_plan_children_concat(base, a.drop_first(), b);
        if clean_rel_path(child_name(base, a[0])) {
            match plan_children(base, a.drop_first()) {
                Result::Ok(acc1) => {
                    match plan_children(base, b) {
                        Result::Ok(rest) => {
                            assert(seq![child_entry(base, a[0])] + (acc1 + rest) =~= (
                            seq![child_entry(base, a[0])] + acc1) + rest);
                        },
                        Result::Err(e) => {},
                    }
                },
                Result::Err(e) => {},
            }
        }
    }
}

/// Planning a concatenation of source lists: the first error wins, else
/// the entries follow in order.
pub proof fn lemma_plan_concat(a: Seq<SourceItem>, b: Seq<SourceItem>, pwd: Seq<u8>)
    ensures
        plan_entries(a + b, pwd) == (match plan_entries(a, pwd) {
            Result::Ok(acc) => match plan_entries(b, pwd) {
                Result::Ok(rest) => Result::Ok::<Seq<EntryV>, SbError>(acc + rest),
                Result::Err(e) => Result::Err(e),
            },
            Result::Err(e) => Result::Err(e),
        }),
    decreases a.len(),
{
    if a.len() == 0 {
        assert(a + b =~= b);
        match plan_entries(b, pwd) {
            Result::Ok(rest) => {
                assert(Seq::<EntryV>::empty() + rest =~= rest);
            },
            Result::Err(e) => {},
        }
    } else {
        assert((a + b)[0] == a[0]);
        assert((a + b).drop_first() =~= a.drop_first() + b);
        lemma_plan_concat(a.drop_first(), b, pwd);
        match plan_one(a[0], pwd) {
            Result::Ok(es) => {
                match plan_entries(a.drop_first(), pwd) {
                    Result::Ok(acc1) => {
                        match plan_entries(b, pwd) {
                            Result::Ok(rest) => {
                                assert(es + (acc1 + rest) =~= (es + acc1) + rest);
                            },
                            Result::Err(e) => {},
                        }
                    },
                    Result::Err(e) => {},
                }
            },
            Result::Err(e) => {},
        }
    }
}

/// Failure law: the first source whose path names nothing on disk makes
/// the whole archive plan fail with `PathNotFound`, whatever follows it.
pub proof fn lemma_missing_path_fails(srcs: Seq<SourceItem>, pwd: Seq<u8>, i: int)
    requires
        0 <= i < srcs.len(),
        srcs[i].kind is Missing,
        forall|j: int| 0 <= j < i ==> (#[trigger] plan_one(srcs[j], pwd)) is Ok,
    ensures
        plan_entries(srcs, pwd) == Err::<Seq<EntryV>, SbError>(SbError::PathNotFound),
    decreases i,
{
    if i == 0 {
    } else {
        let t = srcs.drop_first();
        assert(forall|j: int| 0 <= j < t.len() ==> t[j] == srcs[j + 1]);
        assert(t[i - 1].kind is Missing);
        assert forall|j: int| 0 <= j < i - 1 implies (#[trigger] plan_one(t[j], pwd))
            is Ok by {
            assert(t[j] == srcs[j + 1]);
            assert(plan_one(srcs[j + 1], pwd) is Ok);
        }
        lemma_missing_path_fails(t, pwd, i - 1);
        assert(plan_one(srcs[0], pwd) is Ok);
    }
}

/// The name of the first descendant of a directory that cannot be
/// archived, if any.
pub open spec fn diagnose_children(base: Seq<u8>, kids: Seq<DirChild>) -> Option<Seq<u8>>
    decreases kids.len(),
{
    if kids.len() == 0 {
        Option::None
    } else if !clean_rel_path(child_name(base, kids[0])) {
        Option::Some(child_name(base, kids[0]))
    } else {
        diagnose_children(base, kids.drop_first())
    }
}

/// The path one source's planning failure is about, if it fails: the
/// supplied path itself, or the archive name of an unusable descendant.
pub open spec fn diagnose_one(src: SourceItem, pwd: Seq<u8>) -> Option<Seq<u8>> {
    match src.kind {
        SourceKind::Missing => Option::Some(src.path@),
        SourceKind::File { content } => match plan_name(src.path@, pwd) {
            Result::Ok(name) => Option::None,
            Result::Err(e) => Option::Some(src.path@),
        },
        SourceKind::Dir { children } => match plan_name(src.path@, pwd) {
            Result::Ok(name) => diagnose_children(name, children@),
            Result::Err(e) => Option::Some(src.path@),
        },
    }
}

/// The path the first planning failure is about, if the plan fails.
pub open spec fn plan_diagnosis(srcs: Seq<SourceItem>, pwd: Seq<u8>) -> Option<Seq<u8>>
    decreases srcs.len(),
{
    if srcs.len() == 0 {
        Option::None
    } else {
        match diagnose_one(srcs[0], pwd) {
            Option::Some(p) => Option::Some(p),
            Option::None => plan_diagnosis(srcs.drop_first(), pwd),
        }
    }
}

/// A directory plan fails exactly when some descendant is diagnosed.
proof fn lemma_diagnose_children(base: Seq<u8>, kids: Seq<DirChild>)
    ensures
        (diagnose_children(base, kids) is Some) == (plan_children(base, kids) is Err),
    decreases kids.len(),
{
    if kids.len() > 0 && clean_rel_path(child_name(base, kids[0])) {
        lemma_diagnose_children(base, kids.drop_first());
    }
}

/// One source's plan fails exactly when it is diagnosed.
proof fn lemma_diagnose_one(src: SourceItem, pwd: Seq<u8>)
    ensures
        (diagnose_one(src, pwd) is Some) == (plan_one(src, pwd) is Err),
{
    match src.kind {
        SourceKind::Dir { children } => match plan_name(src.path@, pwd) {
            Result::Ok(name) => {
                lemma_diagnose_children(name, children@);
            },
            Result::Err(e) => {},
        },
        _ => {},
    }
}

/// The plan fails exactly when some source is diagnosed.
pub proof fn lemma_plan_diagnosis(srcs: Seq<SourceItem>, pwd: Seq<u8>)
    ensures
        (plan_diagnosis(srcs, pwd) is Some) == (plan_entries(srcs, pwd) is Err),
    decreases srcs.len(),
{
    if srcs.len() > 0 {
        lemma_diagnose_one(srcs[0], pwd);
        lemma_plan_diagnosis(srcs.drop_first(), pwd);
    }
}

/// Sources already cleared by the diagnosis can be skipped.
proof fn lemma_diagnosis_skip(srcs: Seq<SourceItem>, pwd: Seq<u8>, i: int)
    requires
        0 <= i <= srcs.len(),
        forall|j: int| 0 <= j < i ==> (#[trigger] diagnose_one(srcs[j], pwd)) is None,
    ensures
        plan_diagnosis(srcs, pwd) == plan_diagnosis(srcs.skip(i), pwd),
    decreases i,
{
    if i > 0 {
        let t = srcs.drop_first();
        assert(forall|j: int| 0 <= j < t.len() ==> t[j] == srcs[j + 1]);
        assert forall|j: int| 0 <= j < i - 1 implies (#[trigger] diagnose_one(t[j], pwd))
            is None by {
            assert(t[j] == srcs[j + 1]);
            assert(diagnose_one(srcs[j + 1], pwd) is None);
        }
        lemma_diagnosis_skip(t, pwd, i - 1);
        assert(t.skip(i - 1) =~= srcs.skip(i));
        assert(diagnose_one(srcs[0], pwd) is None);
    } else {
        assert(srcs.skip(0) =~= srcs);
    }
}

/// Descendants already cleared by the diagnosis can be skipped.
proof fn lemma_diag_children_skip(base: Seq<u8>, kids: Seq<DirChild>, k: int)
    requires
        0 <= k <= kids.len(),
        forall|j: int| 0 <= j < k ==> clean_rel_path(#[trigger] child_name(base, kids[j])),
    ensures
        diagnose_children(base, kids) == diagnose_children(base, kids.skip(k)),
    decreases k,
{
    if k > 0 {
        let t = kids.drop_first();
        assert(forall|j: int| 0 <= j < t.len() ==> t[j] == kids[j + 1]);
        assert forall|j: int| 0 <= j < k - 1 implies clean_rel_path(
            #[trigger] child_name(base, t[j]),
        ) by {
            assert(t[j] == kids[j + 1]);
            assert(clean_rel_path(child_name(base, kids[j + 1])));
        }
        lemma_diag_children_skip(base, t, k - 1);
        assert(t.skip(k - 1) =~= kids.skip(k));
        assert(clean_rel_path(child_name(base, kids[0])));
    } else {
        assert(kids.skip(0) =~= kids);
    }
}

/// Identify the path the first planning failure is about, so a caller
/// can report which path made an encode fail.
pub fn offending_path(sources: &Vec<SourceItem>, pwd: &Vec<u8>) -> (r: Option<Vec<u8>>)
    ensures
        match r {
            Some(v) => plan_diagnosis(sources@, pwd@) == Some(v@) && plan_entries(
                sources@,
                pwd@,
            ) is Err,
            None => plan_diagnosis(sources@, pwd@) is None && plan_entries(
                sources@,
                pwd@,
            ) is Ok,
        },
{
    proof {
        lemma_plan_diagnosis(sources@, pwd@);
    }
    let n = sources.len();
    let mut i: usize = 0;
    while i < n
        invariant
            n == sources@.len(),
            i <= n,
            forall|j: int| 0 <= j < i ==> (#[trigger] diagnose_one(sources@[j], pwd@)) is None,
        decreases n - i,
    {
        proof {
            lemma_diagnosis_skip(sources@, pwd@, i as int);
            assert(sources@.skip(i as int)[0] == sources@[i as int]);
        }
        let src = &sources[i];
        match &src.kind {
            SourceKind::Missing => {
                proof {
                    lemma_plan_diagnosis(sources@, pwd@);
                }
                return Some(copy_bytes(&src.path));
            },
            SourceKind::File { content } => {
                match archive_name(&src.path, pwd) {
                    Ok(nm) => {},
                    Err(e) => {
                        proof {
                            lemma_plan_diagnosis(sources@, pwd@);
                        }
                        return Some(copy_bytes(&src.path));
                    },
                }
            },
            SourceKind::Dir { children } => {
                let base = match archive_name(&src.path, pwd) {
                    Ok(nm) => nm,
                    Err(e) => {
                        proof {
                            lemma_plan_diagnosis(sources@, pwd@);
                        }
                        return Some(copy_bytes(&src.path));
                    },
                };
                let m = children.len();
                let mut k: usize = 0;
                while k < m
                    invariant
                        n == sources@.len(),
                        i < n,
                        forall|j: int|
                            0 <= j < i ==> (#[trigger] diagnose_one(sources@[j], pwd@))
                                is None,
                        m == children@.len(),
                        base@ == plan_name(src.path@, pwd@)->Ok_0,
                        src == &sources@[i as int],
                        diagnose_one(sources@[i as int], pwd@) == diagnose_children(
                            base@,
                            children@,
                        ),
                        k <= m,
                        forall|j: int|
                            0 <= j < k ==> clean_rel_path(
                                #[trigger] child_name(base@, children@[j]),
                            ),
                    decreases m - k,
                {
                    proof {
                        lemma_diag_children_skip(base@, children@, k as int);
                        assert(children@.skip(k as int)[0] == children@[k as int]);
                    }
                    let c = &children[k];
                    let mut cname = copy_bytes(&base);
                    cname.push(47);
                    let mut tail = copy_bytes(&c.rel_path);
                    cname.append(&mut tail);
                    proof {
                        assert(cname@ =~= child_name(base@, children@[k as int]));
                    }
                    if !is_clean_rel_path(&cname) {
                        proof {
                            lemma_diagnosis_skip(sources@, pwd@, i as int);
                            lemma_plan_diagnosis(sources@, pwd@);
                        }
                        return Some(cname);
                    }
                    k = k + 1;
                }
                proof {
                    lemma_diag_children_skip(base@, children@, m as int);
                    assert(children@.skip(m as int) =~= Seq::<DirChild>::empty());
                }
            },
        }
        i = i + 1;
    }
    proof {
        lemma_diagnosis_skip(sources@, pwd@, n as int);
        assert(sources@.skip(n as int) =~= Seq::<SourceItem>::empty());
        lemma_plan_diagnosis(sources@, pwd@);
    }
    None
}

/// Append the entries of one directory's descendants to `out`.
fn plan_dir_children(out: &mut Vec<Entry>, base: &Vec<u8>, kids: &Vec<DirChild>) -> (r:
    Result<(), SbError>)
    ensures
        match r {
            Ok(u) => plan_children(base@, kids@) matches Ok(es) && entries_view(
                final(out)@,
            ) == entries_view(old(out)@) + es && final(out)@.take(
                old(out)@.len() as int,
            ) == old(out)@ && (forall|k: int|
                old(out)@.len() <= k < final(out)@.len() ==> clean_rel_path(
                    #[trigger] final(out)@[k].name@,
                )),
            Err(e) => plan_children(base@, kids@) == Err::<Seq<EntryV>, SbError>(e),
        },
{
    let ghost base_len = old(out)@.len() as int;
    let m = kids.len();
    let mut j: usize = 0;
    proof {
        assert(kids@.take(0) =~= Seq::<DirChild>::empty());
        assert(out@.skip(base_len) =~= Seq::<Entry>::empty());
        assert(entries_view(Seq::<Entry>::empty()) =~= Seq::<EntryV>::empty());
        assert(out@.take(base_len) =~= old(out)@);
    }
    while j < m
        invariant
            m == kids@.len(),
            j <= m,
            out@.len() >= base_len >= 0,
            out@.take(base_len) == old(out)@,
            plan_children(base@, kids@.take(j as int)) == Ok::<Seq<EntryV>, SbError>(
                entries_view(out@.skip(base_len)),
            ),
            forall|k: int|
                base_len <= k < out@.len() ==> clean_rel_path(#[trigger] out@[k].name@),
        decreases m - j,
    {
        let c = &kids[j];
        let mut name = copy_bytes(base);
        name.push(47);
        let mut tail = copy_bytes(&c.rel_path);
        name.append(&mut tail);
        proof {
            assert(name@ =~= child_name(base@, kids@[j as int]));
        }
        if !is_clean_rel_path(&name) {
            proof {
                assert(kids@ =~= kids@.take(j as int) + kids@.skip(j as int));
                lemma_plan_children_concat(base@, kids@.take(j as int), kids@.skip(
                    j as int,
                ));
                assert(kids@.skip(j as int)[0] == kids@[j as int]);
            }
            return Err(SbError::PathEscapesRelativeBase);
        }
        let content = match &c.content {
            Option::Some(cv) => Option::Some(copy_bytes(cv)),
            Option::None => Option::None,
        };
        let ghost out_prev = out@;
        let ghost new_name = name@;
        out.push(Entry { name, content });
        proof {
            let cj = kids@[j as int];
            assert(entry_view(out@[out@.len() - 1]) == child_entry(base@, cj));
            assert(out@.take(base_len) =~= out_prev.take(base_len));
            assert(out@.skip(base_len) =~= out_prev.skip(base_len).push(
                out@[out@.len() - 1],
            ));
            assert(entries_view(out@.skip(base_len)) =~= entries_view(
                out_prev.skip(base_len),
            ).push(child_entry(base@, cj)));
            reveal_with_fuel(plan_children, 3);
            assert(kids@.take(j + 1) =~= kids@.take(j as int) + seq![cj]);
            lemma_plan_children_concat(base@, kids@.take(j as int), seq![cj]);
            assert(seq![cj].drop_first() =~= Seq::<DirChild>::empty());
            assert(seq![cj][0] == cj);
            assert(plan_children(base@, Seq::<DirChild>::empty()) == Ok::<
                Seq<EntryV>,
                SbError,
            >(Seq::empty()));
            assert(plan_children(base@, seq![cj]) == Ok::<Seq<EntryV>, SbError>(
                seq![child_entry(base@, cj)] + Seq::<EntryV>::empty(),
            ));
            assert(entries_view(out_prev.skip(base_len)).push(child_entry(base@, cj)) =~=
                entries_view(out_prev.skip(base_len)) + (seq![child_entry(base@, cj)]
                + Seq::<EntryV>::empty()));
        }
        j = j + 1;
    }
    proof {
        assert(kids@.take(m as int) =~= kids@);
        assert(out@ =~= out@.take(base_len) + out@.skip(base_len));
        assert(entries_view(out@) =~= entries_view(out@.take(base_len)) + entries_view(
            out@.skip(base_len),
        ));
    }
    Ok(())
}

/// Turn the source list into the materialized entry list, or the first
/// error that planning earns.
pub fn plan_vec(sources: &Vec<SourceItem>, pwd: &Vec<u8>) -> (r: Result<Vec<Entry>, SbError>)
    ensures
        match r {
            Ok(v) => plan_entries(sources@, pwd@) == Ok::<Seq<EntryV>, SbError>(
                entries_view(v@),
            ) && (forall|k: int|
                0 <= k < v@.len() ==> clean_rel_path(#[trigger] v@[k].name@)),
            Err(e) => plan_entries(sources@, pwd@) == Err::<Seq<EntryV>, SbError>(e),
        },
{
    let n = sources.len();
    let mut out: Vec<Entry> = Vec::new();
    let mut i: usize = 0;
    proof {
        assert(sources@.take(0) =~= Seq::<SourceItem>::empty());
        assert(entries_view(Seq::<Entry>::empty()) =~= Seq::<EntryV>::empty());
    }
    while i < n
        invariant
            n == sources@.len(),
            i <= n,
            plan_entries(sources@.take(i as int), pwd@) == Ok::<Seq<EntryV>, SbError>(
                entries_view(out@),
            ),
            forall|k: int| 0 <= k < out@.len() ==> clean_rel_path(#[trigger] out@[k].name@),
        decreases n - i,
    {
        let ghost srcs = sources@;
        let ghost si = sources@[i as int];
        proof {
            reveal_with_fuel(plan_entries, 3);
            assert(srcs =~= srcs.take(i as int) + srcs.skip(i as int));
            lemma_plan_concat(srcs.take(i as int), srcs.skip(i as int), pwd@);
            assert(srcs.skip(i as int)[0] == si);
            assert(srcs.skip(i as int).drop_first() =~= srcs.skip(i + 1));
            assert(srcs.take(i + 1) =~= srcs.take(i as int) + seq![si]);
            lemma_plan_concat(srcs.take(i as int), seq![si], pwd@);
            assert(seq![si].drop_first() =~= Seq::<SourceItem>::empty());
            assert(seq![si][0] == si);
            assert(plan_entries(Seq::<SourceItem>::empty(), pwd@) == Ok::<
                Seq<EntryV>,
                SbError,
            >(Seq::empty()));
        }
        let src = &sources[i];
        match &src.kind {
            SourceKind::Missing => {
                return Err(SbError::PathNotFound);
            },
            SourceKind::File { content } => {
                let name = match archive_name(&src.path, pwd) {
                    Ok(nm) => nm,
                    Err(e) => {
                        return Err(e);
                    },
                };
                let ghost nm = name@;
                let ghost out_prev = out@;
                out.push(Entry { name, content: Option::Some(copy_bytes(content)) });
                proof {
                    let pushed = out@[out@.len() - 1];
                    assert(entry_view(pushed) == (nm, Option::Some(content@)));
                    assert(plan_one(si, pwd@) == Ok::<Seq<EntryV>, SbError>(
                        seq![(nm, Option::Some(content@))],
                    ));
                    assert(entries_view(out@) =~= entries_view(out_prev).push(
                        entry_view(pushed),
                    ));
                    assert(entries_view(out_prev).push(entry_view(pushed)) =~=
                        entries_view(out_prev) + (seq![(nm, Option::Some(content@))]
                        + Seq::<EntryV>::empty()));
                }
            },
            SourceKind::Dir { children } => {
                let name = match archive_name(&src.path, pwd) {
                    Ok(nm) => nm,
                    Err(e) => {
                        return Err(e);
                    },
                };
                let ghost nm = name@;
                let ghost out_prev = out@;
                out.push(Entry { name: copy_bytes(&name), content: Option::None });
                let ghost out_mid = out@;
                proof {
                    assert(entry_view(out_mid[out_mid.len() - 1]) == (
                        nm,
                        Option::None::<Seq<u8>>,
                    ));
                    assert(entries_view(out_mid) =~= entries_view(out_prev).push(
                        (nm, Option::None::<Seq<u8>>),
                    ));
                }
                match plan_dir_children(&mut out, &name, children) {
                    Ok(u) => {},
                    Err(e) => {
                        return Err(e);
                    },
                }
                proof {
                    let ces = plan_children(nm, children@)->Ok_0;
                    assert(plan_one(si, pwd@) == Ok::<Seq<EntryV>, SbError>(
                        seq![(nm, Option::None::<Seq<u8>>)] + ces,
                    ));
                    assert(entries_view(out@) == entries_view(out_mid) + ces);
                    assert(entries_view(out_prev).push((nm, Option::None::<Seq<u8>>))
                        + ces =~= entries_view(out_prev) + ((seq![(
                        nm,
                        Option::None::<Seq<u8>>,
                    )] + ces) + Seq::<EntryV>::empty()));
                    assert forall|k: int|
                        0 <= k < out@.len() implies clean_rel_path(
                        #[trigger] out@[k].name@,
                    ) by {
                        if k < out_mid.len() {
                            assert(out@.take(out_mid.len() as int)[k] == out@[k]);
                            assert(out@[k] == out_mid[k]);
                        }
                    }
                }
            },
        }
        i = i + 1;
    }
    proof {
        assert(sources@.take(n as int) =~= sources@);
    }
    Ok(out)
}

/// Pack the entry list into a tar byte stream through the outside
/// builder. With every name valid UTF-8 the pack cannot fail, and the
/// produced bytes are exactly the tar serialization of the entries.
pub fn pack_entries(entries: &Vec<Entry>) -> (r: Result<Vec<u8>, SbError>)
    requires
        forall|i: int| 0 <= i < entries@.len() ==> clean_rel_path(#[trigger] entries@[i].name@),
    ensures
        match r {
            Ok(v) => v@ == tar_bytes_of(entries_view(entries@)) && tar_parse_of(v@) == Some(
                entries_view(entries@),
            ),
            Err(e) => e == SbError::ArchivePackFailed,
        },
        (forall|i: int|
            0 <= i < entries@.len() ==> valid_utf8(#[trigger] entries@[i].name@)) ==> r is Ok,
{
    let mut b = tar_new();
    let n = entries.len();
    let mut i: usize = 0;
    proof {
        assert(entries_view(entries@.take(0)) =~= Seq::<EntryV>::empty());
    }
    while i < n
        invariant
            n == entries@.len(),
            i <= n,
            forall|k: int|
                0 <= k < entries@.len() ==> clean_rel_path(#[trigger] entries@[k].name@),
            tar_entries(b) == entries_view(entries@.take(i as int)),
        decreases n - i,
    {
        let en = &entries[i];
        let step = match &en.content {
            Option::Some(c) => tar_append_file(&mut b, &en.name, c),
            Option::None => tar_append_dir(&mut b, &en.name),
        };
        match step {
            Ok(u) => {},
            Err(e) => {
                proof {
                    if forall|k: int|
                        0 <= k < entries@.len() ==> valid_utf8(#[trigger] entries@[k].name@) {
                        assert(valid_utf8(entries@[i as int].name@));
                        assert(false);
                    }
                }
                return Err(SbError::ArchivePackFailed);
            },
        }
        proof {
            assert(entries@.take(i + 1) =~= entries@.take(i as int).push(
                entries@[i as int],
            ));
            assert(entries_view(entries@.take(i + 1)) =~= entries_view(
                entries@.take(i as int),
            ).push(entry_view(entries@[i as int])));
        }
        i = i + 1;
    }
    proof {
        assert(entries@.take(n as int) =~= entries@);
    }
    match tar_finish(b) {
        Ok(v) => Ok(v),
        Err(e) => Err(SbError::ArchivePackFailed),
    }
}

} // verus!
