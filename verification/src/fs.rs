use vstd::prelude::*;

use crate::path::{ext_of, file_name};
use crate::text::{chars_eq, chars_string, str_chars};

verus! {

/// The shapes of a sequence of strings.
pub open spec fn strs_view(v: Seq<String>) -> Seq<Seq<char>> {
    Seq::new(v.len(), |i: int| v[i]@)
}

/// A plain snapshot of one filesystem directory: its absolute path, the
/// absolute paths of its files in enumeration order, and its
/// subdirectories. The caller that walks the filesystem builds it; the
/// index works on it alone.
pub struct RawDir {
    pub base: String,
    pub files: Vec<String>,
    pub subdirs: Vec<RawDir>,
}

/// The mathematical shape of a `RawDir`.
pub struct RawDirV {
    pub base: Seq<char>,
    pub files: Seq<Seq<char>>,
    pub subdirs: Seq<RawDirV>,
}

impl RawDir {
    pub open spec fn view(&self) -> RawDirV
        decreases self,
    {
        RawDirV {
            base: self.base@,
            files: strs_view(self.files@),
            subdirs: rawdirs_view(self.subdirs@),
        }
    }
}

/// The shapes of a sequence of snapshots, element by element.
pub open spec fn rawdirs_view(v: Seq<RawDir>) -> Seq<RawDirV>
    decreases v,
{
    if v.len() == 0 {
        Seq::empty()
    } else {
        rawdirs_view(v.subrange(0, v.len() - 1)).push(v[v.len() - 1].view())
    }
}

/// `rawdirs_view` reads each element through `RawDir::view`.
pub proof fn lemma_rawdirs_view(v: Seq<RawDir>)
    ensures
        rawdirs_view(v).len() == v.len(),
        forall|i: int| 0 <= i < v.len() ==> rawdirs_view(v)[i] == #[trigger] v[i].view(),
    decreases v.len(),
{
    if v.len() > 0 {
        lemma_rawdirs_view(v.subrange(0, v.len() - 1));
        assert forall|i: int| 0 <= i < v.len() implies rawdirs_view(v)[i] == #[trigger] v[i].view() by {
            if i < v.len() - 1 {
                assert(v.subrange(0, v.len() - 1)[i] == v[i]);
            }
        }
    }
}

/// The in-memory mirror of a filesystem subtree: its absolute base path,
/// its indexed subdirectories in order, and its files grouped by the
/// extension of their final segment, each group in enumeration order.
pub struct Directory {
    pub base: String,
    pub directories: Vec<Directory>,
    pub files_by_extension: Vec<(String, Vec<String>)>,
}

/// The mathematical shape of a `Directory`.
pub struct DirectoryV {
    pub base: Seq<char>,
    pub directories: Seq<DirectoryV>,
    pub files_by_extension: Seq<(Seq<char>, Seq<Seq<char>>)>,
}

/// The shapes of the extension groups.
pub open spec fn buckets_view(v: Seq<(String, Vec<String>)>) -> Seq<(Seq<char>, Seq<Seq<char>>)> {
    Seq::new(v.len(), |i: int| (v[i].0@, strs_view(v[i].1@)))
}

impl Directory {
    pub open spec fn view(&self) -> DirectoryV
        decreases self,
    {
        DirectoryV {
            base: self.base@,
            directories: dirs_view(self.directories@),
            files_by_extension: buckets_view(self.files_by_extension@),
        }
    }
}

/// The shapes of a sequence of directories, element by element.
pub open spec fn dirs_view(v: Seq<Directory>) -> Seq<DirectoryV>
    decreases v,
{
    if v.len() == 0 {
        Seq::empty()
    } else {
        dirs_view(v.subrange(0, v.len() - 1)).push(v[v.len() - 1].view())
    }
}

/// `dirs_view` reads each element through `Directory::view`.
pub proof fn lemma_dirs_view(v: Seq<Directory>)
    ensures
        dirs_view(v).len() == v.len(),
        forall|i: int| 0 <= i < v.len() ==> dirs_view(v)[i] == #[trigger] v[i].view(),
    decreases v.len(),
{
    if v.len() > 0 {
        lemma_dirs_view(v.subrange(0, v.len() - 1));
        assert forall|i: int| 0 <= i < v.len() implies dirs_view(v)[i] == #[trigger] v[i].view() by {
            if i < v.len() - 1 {
                assert(v.subrange(0, v.len() - 1)[i] == v[i]);
            }
        }
    }
}

/// The directory name that is never indexed.
pub open spec fn git_name() -> Seq<char> {
    seq!['.', 'g', 'i', 't']
}

/// The position of the group keyed `e`, or `-1`.
pub open spec fn bucket_idx(acc: Seq<(Seq<char>, Seq<Seq<char>>)>, e: Seq<char>) -> int
    decreases acc.len(),
{
    if acc.len() == 0 {
        -1
    } else if acc[0].0 == e {
        0
    } else {
        let r = bucket_idx(acc.drop_first(), e);
        if r == -1 {
            -1
        } else {
            r + 1
        }
    }
}

/// What `bucket_idx` returns: the first group with that key, if any.
pub proof fn lemma_bucket_idx(acc: Seq<(Seq<char>, Seq<Seq<char>>)>, e: Seq<char>)
    ensures
        bucket_idx(acc, e) >= -1,
        bucket_idx(acc, e) == -1 ==> forall|i: int| 0 <= i < acc.len() ==> acc[i].0 != e,
        bucket_idx(acc, e) >= 0 ==> bucket_idx(acc, e) < acc.len() && acc[bucket_idx(acc, e)].0
            == e,
        bucket_idx(acc, e) >= 0 ==> forall|i: int| 0 <= i < bucket_idx(acc, e) ==> acc[i].0 != e,
    decreases acc.len(),
{
    if acc.len() > 0 && acc[0].0 != e {
        lemma_bucket_idx(acc.drop_first(), e);
        assert(forall|i: int| 0 <= i < acc.len() - 1 ==> acc.drop_first()[i] == acc[i + 1]);
        let r = bucket_idx(acc.drop_first(), e);
        if r == -1 {
            assert forall|i: int| 0 <= i < acc.len() implies acc[i].0 != e by {
                if i > 0 {
                    assert(acc.drop_first()[i - 1] == acc[i]);
                }
            }
        } else {
            assert forall|i: int| 0 <= i < bucket_idx(acc, e) implies acc[i].0 != e by {
                if i > 0 {
                    assert(acc.drop_first()[i - 1] == acc[i]);
                }
            }
        }
    }
}

/// A file appended to its extension's group, which is created at the end
/// on first use.
pub open spec fn bucket_add(
    acc: Seq<(Seq<char>, Seq<Seq<char>>)>,
    e: Seq<char>,
    f: Seq<char>,
) -> Seq<(Seq<char>, Seq<Seq<char>>)> {
    let j = bucket_idx(acc, e);
    if j >= 0 {
        acc.update(j, (e, acc[j].1.push(f)))
    } else {
        acc.push((e, seq![f]))
    }
}

/// The files from position `i` on grouped onto `acc`.
pub open spec fn group_from(
    fs: Seq<Seq<char>>,
    i: int,
    acc: Seq<(Seq<char>, Seq<Seq<char>>)>,
) -> Seq<(Seq<char>, Seq<Seq<char>>)>
    decreases fs.len() - i,
{
    if i < 0 || i >= fs.len() {
        acc
    } else {
        group_from(fs, i + 1, bucket_add(acc, ext_of(fs[i]), fs[i]))
    }
}

/// What indexing a snapshot yields: the base kept, each subdirectory not
/// named `.git` indexed in order, and the files grouped by extension.
pub open spec fn spec_index(raw: RawDirV) -> DirectoryV
    decreases raw,
{
    DirectoryV {
        base: raw.base,
        directories: spec_index_subdirs(raw.subdirs, 0),
        files_by_extension: group_from(raw.files, 0, Seq::empty()),
    }
}

/// The subdirectories from position `i` on, indexed; one whose final path
/// segment is `.git` is left out entirely.
pub open spec fn spec_index_subdirs(ds: Seq<RawDirV>, i: int) -> Seq<DirectoryV>
    decreases ds, ds.len() - i,
{
    if i < 0 || i >= ds.len() {
        Seq::empty()
    } else if file_name(ds[i].base) == git_name() {
        spec_index_subdirs(ds, i + 1)
    } else {
        seq![spec_index(ds[i])] + spec_index_subdirs(ds, i + 1)
    }
}

/// The two faults of the filesystem boundary: a supplied root that does
/// not resolve to a directory, and any underlying filesystem failure.
/// The caller that walks the filesystem raises them; each carries the
/// offending path or the failure's text.
#[derive(Debug, PartialEq)]
pub enum DirectoryError {
    NotADirectory(String),
    IoError(String),
}

impl DirectoryError {
    /// A readable account of the fault.
    pub fn message(&self) -> (r: String)
        ensures
            (self matches DirectoryError::NotADirectory(p) ==> r@ == "not a directory: "@ + p@),
            (self matches DirectoryError::IoError(m) ==> r@ == "filesystem failure: "@ + m@),
    {
        match self {
            DirectoryError::NotADirectory(p) => {
                let mut out = String::from_str("not a directory: ");
                out.append(p.as_str());
                out
            },
            DirectoryError::IoError(m) => {
                let mut out = String::from_str("filesystem failure: ");
                out.append(m.as_str());
                out
            },
        }
    }
}

/// Finds the group keyed `key`.
pub(crate) fn find_bucket(fbe: &Vec<(String, Vec<String>)>, key: &String) -> (r: Option<usize>)
    ensures
        match r {
            Some(j) => bucket_idx(buckets_view(fbe@), key@) == j as int,
            None => bucket_idx(buckets_view(fbe@), key@) == -1,
        },
{
    proof {
        lemma_bucket_idx(buckets_view(fbe@), key@);
    }
    let mut j: usize = 0;
    let n = fbe.len();
    while j < n
        invariant
            j <= n,
            n == fbe@.len(),
            buckets_view(fbe@).len() == n,
            forall|k: int| 0 <= k < j ==> buckets_view(fbe@)[k].0 != key@,
        decreases n - j,
    {
        if fbe[j].0.eq(key) {
            proof {
                let bv = buckets_view(fbe@);
                lemma_bucket_idx(bv, key@);
                assert(bv[j as int].0 == key@);
                if bucket_idx(bv, key@) == -1 {
                    assert(bv[j as int].0 != key@);
                    assert(false);
                } else if bucket_idx(bv, key@) < j {
                    assert(bv[bucket_idx(bv, key@)].0 == key@);
                    assert(false);
                } else if bucket_idx(bv, key@) > j {
                    assert(bv[j as int].0 != key@);
                    assert(false);
                }
            }
            return Some(j);
        }
        proof {
            assert(buckets_view(fbe@)[j as int].0 == fbe@[j as int].0@);
        }
        j = j + 1;
    }
    proof {
        let bv = buckets_view(fbe@);
        lemma_bucket_idx(bv, key@);
        if bucket_idx(bv, key@) >= 0 {
            assert(bv[bucket_idx(bv, key@)].0 == key@);
            assert(false);
        }
    }
    None
}

impl Directory {
    /// Builds the index of a filesystem snapshot: the base is kept, each
    /// subdirectory is indexed in order unless its final path segment is
    /// exactly `.git`, and every file joins the group of its extension,
    /// groups appearing in order of first use.
    pub fn index(raw: &RawDir) -> (r: Directory)
        ensures
            r@ == spec_index(raw@),
            dir_wf(r@),
        decreases raw,
    {
        proof {
            lemma_index_wf(raw@);
        }
        let ghost filesv = strs_view(raw.files@);
        let mut fbe: Vec<(String, Vec<String>)> = Vec::new();
        let mut i: usize = 0;
        let nf = raw.files.len();
        proof {
            assert(buckets_view(fbe@) =~= Seq::<(Seq<char>, Seq<Seq<char>>)>::empty());
        }
        while i < nf
            invariant
                i <= nf,
                nf == raw.files@.len(),
                filesv == strs_view(raw.files@),
                filesv.len() == nf,
                group_from(filesv, i as int, buckets_view(fbe@)) == group_from(
                    filesv,
                    0,
                    Seq::empty(),
                ),
            decreases nf - i,
        {
            let ghost acc = buckets_view(fbe@);
            let fv = str_chars(raw.files[i].as_str());
            let ev = crate::path::ext_of_chars(&fv);
            let es = chars_string(&ev);
            let f = raw.files[i].clone();
            proof {
                assert(fv@ == filesv[i as int]);
                assert(es@ == ext_of(filesv[i as int]));
                assert(f@ == filesv[i as int]);
            }
            match find_bucket(&fbe, &es) {
                Some(j) => {
                    let ghost fbev = fbe@;
                    proof {
                        lemma_bucket_idx(acc, es@);
                        assert(acc.len() == fbe@.len());
                        assert(j < fbe@.len());
                        assert(acc[j as int] == (fbev[j as int].0@, strs_view(fbev[j as int].1@)));
                    }
                    let (k, mut v) = fbe.remove(j);
                    let ghost vv = strs_view(v@);
                    v.push(f);
                    proof {
                        assert(strs_view(v@) =~= vv.push(filesv[i as int]));
                        assert(vv == acc[j as int].1);
                    }
                    let ghost kg = k;
                    fbe.insert(j, (k, v));
                    proof {
                        lemma_bucket_idx(acc, es@);
                        assert(kg@ == acc[j as int].0);
                        assert(buckets_view(fbe@) =~= acc.update(
                            j as int,
                            (es@, acc[j as int].1.push(filesv[i as int])),
                        )) by {
                            assert(fbe@ =~= fbev.remove(j as int).insert(j as int, (kg, fbe@[j as int].1)));
                            assert(forall|x: int|
                                0 <= x < fbe@.len() && x != j ==> #[trigger] fbe@[x] == fbev[x]);
                        }
                        assert(bucket_add(acc, ext_of(filesv[i as int]), filesv[i as int])
                            == buckets_view(fbe@));
                    }
                },
                None => {
                    let ghost fbev = fbe@;
                    let mut v: Vec<String> = Vec::new();
                    v.push(f);
                    proof {
                        assert(strs_view(v@) =~= seq![filesv[i as int]]);
                    }
                    fbe.push((es, v));
                    proof {
                        assert(buckets_view(fbe@) =~= acc.push(
                            (ext_of(filesv[i as int]), seq![filesv[i as int]]),
                        ));
                        assert(bucket_add(acc, ext_of(filesv[i as int]), filesv[i as int])
                            == buckets_view(fbe@));
                    }
                },
            }
            i = i + 1;
        }
        let ghost subv = rawdirs_view(raw.subdirs@);
        let mut dirs: Vec<Directory> = Vec::new();
        let mut d: usize = 0;
        let nd = raw.subdirs.len();
        let mut gitpat: Vec<char> = Vec::new();
        gitpat.push('.');
        gitpat.push('g');
        gitpat.push('i');
        gitpat.push('t');
        proof {
            assert(gitpat@ =~= git_name());
            assert(dirs_view(dirs@) =~= Seq::<DirectoryV>::empty());
            lemma_rawdirs_view(raw.subdirs@);
            assert(dirs_view(dirs@) + spec_index_subdirs(subv, 0) =~= spec_index_subdirs(subv, 0));
        }
        while d < nd
            invariant
                d <= nd,
                nd == raw.subdirs@.len(),
                subv == rawdirs_view(raw.subdirs@),
                subv.len() == nd,
                gitpat@ == git_name(),
                dirs_view(dirs@) + spec_index_subdirs(subv, d as int) == spec_index_subdirs(
                    subv,
                    0,
                ),
            decreases nd - d,
        {
            let ghost dv0 = dirs_view(dirs@);
            let bv = str_chars(raw.subdirs[d].base.as_str());
            let name = crate::path::file_name_chars(&bv);
            proof {
                lemma_rawdirs_view(raw.subdirs@);
                assert(subv[d as int] == raw.subdirs@[d as int].view());
                assert(bv@ == subv[d as int].base);
                assert(name@ == file_name(subv[d as int].base));
            }
            if !chars_eq(&name, &gitpat) {
                let sub = Directory::index(&raw.subdirs[d]);
                let ghost gsub = sub;
                let ghost dvec0 = dirs@;
                dirs.push(sub);
                proof {
                    lemma_rawdirs_view(raw.subdirs@);
                    assert(subv[d as int] == raw.subdirs@[d as int].view());
                    assert(gsub.view() == spec_index(subv[d as int]));
                    assert(dirs@ == dvec0.push(gsub));
                    assert(dirs@.subrange(0, dirs@.len() - 1) =~= dvec0);
                    assert(dirs_view(dirs@) =~= dv0.push(gsub.view()));
                    assert(spec_index_subdirs(subv, d as int) == seq![spec_index(subv[d as int])]
                        + spec_index_subdirs(subv, d + 1));
                    assert(dv0.push(gsub.view()) + spec_index_subdirs(subv, d + 1) =~= dv0 + (seq![
                        spec_index(subv[d as int]),
                    ] + spec_index_subdirs(subv, d + 1)));
                }
            } else {
                proof {
                    assert(spec_index_subdirs(subv, d as int) == spec_index_subdirs(subv, d + 1));
                }
            }
            d = d + 1;
        }
        let r = Directory { base: raw.base.clone(), directories: dirs, files_by_extension: fbe };
        proof {
            assert(spec_index_subdirs(subv, nd as int) =~= Seq::<DirectoryV>::empty());
            assert(dirs_view(r.directories@) + Seq::<DirectoryV>::empty() =~= dirs_view(
                r.directories@,
            ));
            assert(group_from(filesv, nf as int, buckets_view(r.files_by_extension@))
                == buckets_view(r.files_by_extension@));
        }
        r
    }
}

/// The files of the group keyed `e`, or none.
pub open spec fn bucket_files(fbe: Seq<(Seq<char>, Seq<Seq<char>>)>, e: Seq<char>) -> Seq<
    Seq<char>,
> {
    let j = bucket_idx(fbe, e);
    if j >= 0 {
        fbe[j].1
    } else {
        Seq::empty()
    }
}

/// The files with extension `e` under a directory, depth first: this
/// node's group first, then each child's files in child order.
pub open spec fn spec_find_all(d: DirectoryV, e: Seq<char>) -> Seq<Seq<char>>
    decreases d, 0int,
{
    bucket_files(d.files_by_extension, e) + find_all_dirs(d.directories, 0, e)
}

/// The files with extension `e` under the children from position `i` on.
pub open spec fn find_all_dirs(ds: Seq<DirectoryV>, i: int, e: Seq<char>) -> Seq<Seq<char>>
    decreases ds, ds.len() - i + 1,
{
    if i < 0 || i >= ds.len() {
        Seq::empty()
    } else {
        spec_find_all(ds[i], e) + find_all_dirs(ds, i + 1, e)
    }
}

impl Directory {
    /// Collects every indexed file whose extension is `ext`, depth first:
    /// this directory's matches first, then each child's, in order.
    pub fn find_all_by_extension(&self, ext: &str) -> (r: Vec<String>)
        ensures
            strs_view(r@) == spec_find_all(self@, ext@),
        decreases self,
    {
        let key = String::from_str(ext);
        let ghost fbev = buckets_view(self.files_by_extension@);
        let mut ret: Vec<String> = Vec::new();
        match find_bucket(&self.files_by_extension, &key) {
            Some(j) => {
                proof {
                    lemma_bucket_idx(fbev, ext@);
                }
                let bucket = &self.files_by_extension[j].1;
                let mut i: usize = 0;
                proof {
                    assert(fbev[j as int].1 == strs_view(bucket@));
                    assert(strs_view(ret@) =~= strs_view(bucket@).take(0));
                }
                while i < bucket.len()
                    invariant
                        i <= bucket@.len(),
                        strs_view(bucket@).len() == bucket@.len(),
                        strs_view(ret@) == strs_view(bucket@).take(i as int),
                    decreases bucket@.len() - i,
                {
                    let ghost rvec = ret@;
                    let c = bucket[i].clone();
                    let ghost gc = c;
                    ret.push(c);
                    proof {
                        assert(gc == bucket@[i as int]);
                        assert(ret@ == rvec.push(gc));
                        assert(strs_view(rvec).len() == rvec.len());
                        assert(rvec.len() == i as int);
                        assert(ret@.len() == i + 1);
                        assert forall|k: int| 0 <= k < i + 1 implies strs_view(ret@)[k]
                            == strs_view(bucket@).take(i + 1)[k] by {
                            assert(strs_view(ret@)[k] == ret@[k]@);
                            assert(strs_view(bucket@).take(i + 1)[k] == bucket@[k]@);
                            if k < i {
                                assert(ret@[k] == rvec[k]);
                                assert(strs_view(rvec)[k] == strs_view(bucket@).take(i as int)[k]);
                                assert(strs_view(rvec)[k] == rvec[k]@);
                            } else {
                                assert(ret@[k] == gc);
                            }
                        }
                        assert(strs_view(ret@) =~= strs_view(bucket@).take(i + 1));
                    }
                    i = i + 1;
                }
                proof {
                    assert(strs_view(bucket@).take(bucket@.len() as int) =~= strs_view(bucket@));
                    assert(strs_view(ret@) == bucket_files(fbev, ext@));
                }
            },
            None => {
                proof {
                    assert(strs_view(ret@) =~= Seq::<Seq<char>>::empty());
                    assert(strs_view(ret@) == bucket_files(fbev, ext@));
                }
            },
        }
        let ghost dsv = dirs_view(self.directories@);
        let mut d: usize = 0;
        let nd = self.directories.len();
        proof {
            lemma_dirs_view(self.directories@);
            assert(strs_view(ret@) + find_all_dirs(dsv, 0, ext@) =~= bucket_files(fbev, ext@)
                + find_all_dirs(dsv, 0, ext@));
        }
        while d < nd
            invariant
                d <= nd,
                nd == self.directories@.len(),
                dsv == dirs_view(self.directories@),
                dsv.len() == nd,
                fbev == buckets_view(self.files_by_extension@),
                strs_view(ret@) + find_all_dirs(dsv, d as int, ext@) == bucket_files(fbev, ext@)
                    + find_all_dirs(dsv, 0, ext@),
            decreases nd - d,
        {
            let ghost rv0 = strs_view(ret@);
            let mut sub = self.directories[d].find_all_by_extension(ext);
            let ghost subvec = sub@;
            let ghost rvec = ret@;
            ret.append(&mut sub);
            proof {
                lemma_dirs_view(self.directories@);
                assert(dsv[d as int] == self.directories@[d as int].view());
                assert(ret@ == rvec + subvec);
                assert(strs_view(ret@) =~= rv0 + strs_view(subvec));
                assert(find_all_dirs(dsv, d as int, ext@) == spec_find_all(dsv[d as int], ext@)
                    + find_all_dirs(dsv, d + 1, ext@));
                assert((rv0 + strs_view(subvec)) + find_all_dirs(dsv, d + 1, ext@) =~= rv0 + (
                strs_view(subvec) + find_all_dirs(dsv, d + 1, ext@)));
            }
            d = d + 1;
        }
        proof {
            assert(find_all_dirs(dsv, nd as int, ext@) =~= Seq::<Seq<char>>::empty());
            assert(strs_view(ret@) + Seq::<Seq<char>>::empty() =~= strs_view(ret@));
        }
        ret
    }
}

/// Whether a child's base path ends in the component `name`.
pub open spec fn child_matches(c: DirectoryV, name: Seq<char>) -> bool {
    crate::path::path_comps(c.base).len() > 0 && crate::path::path_comps(c.base).last() == name
}

/// The position of the first child whose base ends in `name`, or `-1`.
pub open spec fn child_idx(ds: Seq<DirectoryV>, name: Seq<char>) -> int
    decreases ds.len(),
{
    if ds.len() == 0 {
        -1
    } else if child_matches(ds[0], name) {
        0
    } else {
        let r = child_idx(ds.drop_first(), name);
        if r == -1 {
            -1
        } else {
            r + 1
        }
    }
}

/// What `child_idx` returns: the first matching child, if any.
pub proof fn lemma_child_idx(ds: Seq<DirectoryV>, name: Seq<char>)
    ensures
        child_idx(ds, name) >= -1,
        child_idx(ds, name) == -1 ==> forall|i: int|
            0 <= i < ds.len() ==> !child_matches(#[trigger] ds[i], name),
        child_idx(ds, name) >= 0 ==> child_idx(ds, name) < ds.len() && child_matches(
            ds[child_idx(ds, name)],
            name,
        ),
        child_idx(ds, name) >= 0 ==> forall|i: int|
            0 <= i < child_idx(ds, name) ==> !child_matches(#[trigger] ds[i], name),
    decreases ds.len(),
{
    if ds.len() > 0 && !child_matches(ds[0], name) {
        lemma_child_idx(ds.drop_first(), name);
        assert(forall|i: int| 0 <= i < ds.len() - 1 ==> ds.drop_first()[i] == ds[i + 1]);
        let r = child_idx(ds.drop_first(), name);
        if r == -1 {
            assert forall|i: int| 0 <= i < ds.len() implies !child_matches(
                #[trigger] ds[i],
                name,
            ) by {
                if i > 0 {
                    assert(ds.drop_first()[i - 1] == ds[i]);
                }
            }
        } else {
            assert forall|i: int| 0 <= i < child_idx(ds, name) implies !child_matches(
                #[trigger] ds[i],
                name,
            ) by {
                if i > 0 {
                    assert(ds.drop_first()[i - 1] == ds[i]);
                }
            }
        }
    }
}

/// The subtree rooted exactly at `pv`, reached by descending into the
/// first child whose base ends in the next path component, or nothing.
pub open spec fn spec_get_dir(d: DirectoryV, pv: Seq<char>) -> Option<DirectoryV>
    decreases d,
    via spec_get_dir_dec
{
    let pc = crate::path::path_comps(pv);
    let bc = crate::path::path_comps(d.base);
    if pc == bc {
        Some(d)
    } else if crate::path::comps_prefix(bc, pc) && pc.len() > bc.len() {
        let first = pc[bc.len() as int];
        let j = child_idx(d.directories, first);
        if j >= 0 {
            spec_get_dir(d.directories[j], pv)
        } else {
            None
        }
    } else {
        None
    }
}

#[via_fn]
proof fn spec_get_dir_dec(d: DirectoryV, pv: Seq<char>) {
    let pc = crate::path::path_comps(pv);
    let bc = crate::path::path_comps(d.base);
    if pc != bc && crate::path::comps_prefix(bc, pc) && pc.len() > bc.len() {
        lemma_child_idx(d.directories, pc[bc.len() as int]);
    }
}

impl Directory {
    /// Returns the subtree rooted exactly at `path`: this directory when
    /// the components match, else the lookup continues in the first child
    /// whose base ends in the next component of `path`.
    pub fn get_directory(&self, path: &str) -> (r: Option<&Directory>)
        ensures
            match r {
                Some(sub) => spec_get_dir(self@, path@) == Some(sub@),
                None => spec_get_dir(self@, path@) is None,
            },
        decreases self,
    {
        let pv = str_chars(path);
        let pc = crate::path::split_comps(&pv);
        let bv = str_chars(self.base.as_str());
        let bc = crate::path::split_comps(&bv);
        let ghost pcs = pc.deep_view();
        let ghost bcs = bc.deep_view();
        if bc.len() == pc.len() && crate::path::comps_prefix_upto(&bc, bc.len(), &pc) {
            proof {
                assert(bcs.take(bcs.len() as int) =~= bcs);
                assert(pcs.take(bcs.len() as int) =~= pcs);
            }
            return Some(self);
        }
        let prefix_ok = crate::path::comps_prefix_upto(&bc, bc.len(), &pc);
        if !(prefix_ok && pc.len() > bc.len()) {
            proof {
                assert(bcs.take(bcs.len() as int) =~= bcs);
                if bcs == pcs {
                    assert(bcs.len() == pcs.len());
                    assert(crate::path::comps_prefix(bcs, pcs));
                }
            }
            return None;
        }
        proof {
            assert(bcs.take(bcs.len() as int) =~= bcs);
            assert(bcs != pcs) by {
                if bcs == pcs {
                    assert(bcs.len() == pcs.len());
                }
            }
        }
        let first = &pc[bc.len()];
        let ghost dsv = dirs_view(self.directories@);
        let mut j: usize = 0;
        let nd = self.directories.len();
        proof {
            lemma_dirs_view(self.directories@);
            lemma_child_idx(dsv, pcs[bcs.len() as int]);
        }
        while j < nd
            invariant
                j <= nd,
                nd == self.directories@.len(),
                dsv == dirs_view(self.directories@),
                dsv.len() == nd,
                pcs == pc.deep_view(),
                bcs == bc.deep_view(),
                pcs == crate::path::path_comps(path@),
                bcs == crate::path::path_comps(self.base@),
                crate::path::comps_prefix(bcs, pcs),
                bcs.len() < pcs.len(),
                first@ == pcs[bcs.len() as int],
                forall|i: int| 0 <= i < j ==> !child_matches(#[trigger] dsv[i], first@),
            decreases nd - j,
        {
            let cb = str_chars(self.directories[j].base.as_str());
            let ccomps = crate::path::split_comps(&cb);
            proof {
                lemma_dirs_view(self.directories@);
                assert(dsv[j as int] == self.directories@[j as int].view());
                assert(ccomps.deep_view() == crate::path::path_comps(dsv[j as int].base));
            }
            if ccomps.len() > 0 && crate::text::chars_eq(&ccomps[ccomps.len() - 1], first) {
                proof {
                    assert(ccomps.deep_view()[ccomps@.len() - 1] == ccomps@[ccomps@.len() - 1]@);
                    assert(child_matches(dsv[j as int], first@));
                    lemma_child_idx(dsv, first@);
                    if child_idx(dsv, first@) == -1 {
                        assert(false);
                    } else if child_idx(dsv, first@) < j {
                        assert(child_matches(dsv[child_idx(dsv, first@)], first@));
                        assert(false);
                    } else if child_idx(dsv, first@) > j {
                        assert(!child_matches(dsv[j as int], first@));
                        assert(false);
                    }
                }
                return self.directories[j].get_directory(path);
            }
            proof {
                if ccomps.len() > 0 {
                    assert(ccomps.deep_view()[ccomps@.len() - 1] == ccomps@[ccomps@.len() - 1]@);
                }
                assert(!child_matches(dsv[j as int], first@));
            }
            j = j + 1;
        }
        proof {
            lemma_child_idx(dsv, first@);
            if child_idx(dsv, first@) >= 0 {
                assert(child_matches(dsv[child_idx(dsv, first@)], first@));
                assert(false);
            }
        }
        None
    }
}

/// All files of the groups from position `i` on, in group order.
pub open spec fn bucket_all(fbe: Seq<(Seq<char>, Seq<Seq<char>>)>) -> Seq<Seq<char>>
    decreases fbe.len(),
{
    if fbe.len() == 0 {
        Seq::empty()
    } else {
        fbe[0].1 + bucket_all(fbe.drop_first())
    }
}

/// Every indexed file under a directory, in index order.
pub open spec fn all_files(d: DirectoryV) -> Seq<Seq<char>>
    decreases d, 0int,
{
    bucket_all(d.files_by_extension) + all_files_dirs(d.directories, 0)
}

/// Every indexed file under the children from position `i` on.
pub open spec fn all_files_dirs(ds: Seq<DirectoryV>, i: int) -> Seq<Seq<char>>
    decreases ds, ds.len() - i + 1,
{
    if i < 0 || i >= ds.len() {
        Seq::empty()
    } else {
        all_files(ds[i]) + all_files_dirs(ds, i + 1)
    }
}

/// Well-formed groups: keys pairwise distinct, and every file of a group
/// has the group's key as its extension.
pub open spec fn buckets_wf(fbe: Seq<(Seq<char>, Seq<Seq<char>>)>) -> bool {
    (forall|i: int, j: int| 0 <= i < j < fbe.len() ==> fbe[i].0 != fbe[j].0) && (forall|i: int, k: int|
        0 <= i < fbe.len() && 0 <= k < fbe[i].1.len() ==> ext_of(#[trigger] fbe[i].1[k])
            == fbe[i].0)
}

/// A well-formed index: groups well formed here and in every child.
pub open spec fn dir_wf(d: DirectoryV) -> bool
    decreases d, 0int,
{
    buckets_wf(d.files_by_extension) && dirs_wf(d.directories, 0)
}

/// The children from position `i` on are well formed.
pub open spec fn dirs_wf(ds: Seq<DirectoryV>, i: int) -> bool
    decreases ds, ds.len() - i + 1,
{
    i >= ds.len() || i < 0 || (dir_wf(ds[i]) && dirs_wf(ds, i + 1))
}

/// No file of any group has extension `x`: then `x` is counted zero times.
proof fn lemma_bucket_all_zero(fbe: Seq<(Seq<char>, Seq<Seq<char>>)>, f: Seq<char>)
    requires
        buckets_wf(fbe),
        forall|i: int| 0 <= i < fbe.len() ==> fbe[i].0 != ext_of(f),
    ensures
        bucket_all(fbe).to_multiset().count(f) == 0,
    decreases fbe.len(),
{
    broadcast use vstd::seq_lib::group_to_multiset_ensures;

    if fbe.len() == 0 {
        assert(bucket_all(fbe).to_multiset().count(f) == 0);
    } else {
        let rest = fbe.drop_first();
        assert(forall|i: int| 0 <= i < rest.len() ==> rest[i] == fbe[i + 1]);
        assert(buckets_wf(rest)) by {
            assert(forall|i: int, k: int|
                0 <= i < rest.len() && 0 <= k < rest[i].1.len() ==> ext_of(#[trigger] rest[i].1[k])
                    == rest[i].0);
        }
        lemma_bucket_all_zero(rest, f);
        vstd::seq_lib::lemma_multiset_commutative(fbe[0].1, bucket_all(rest));
        assert(!fbe[0].1.contains(f)) by {
            if fbe[0].1.contains(f) {
                let k = choose|k: int| 0 <= k < fbe[0].1.len() && fbe[0].1[k] == f;
                assert(ext_of(fbe[0].1[k]) == fbe[0].0);
            }
        }
        assert(fbe[0].1.to_multiset().count(f) == 0);
    }
}

/// The group of extension `e` holds exactly the files of extension `e`
/// among all groups, with multiplicity.
proof fn lemma_bucket_files_count(fbe: Seq<(Seq<char>, Seq<Seq<char>>)>, e: Seq<char>, f: Seq<char>)
    requires
        buckets_wf(fbe),
    ensures
        bucket_files(fbe, e).to_multiset().count(f) == if ext_of(f) == e {
            bucket_all(fbe).to_multiset().count(f)
        } else {
            0nat
        },
    decreases fbe.len(),
{
    broadcast use vstd::seq_lib::group_to_multiset_ensures;

    if fbe.len() == 0 {
        assert(bucket_files(fbe, e).to_multiset().count(f) == 0);
    } else {
        let rest = fbe.drop_first();
        assert(forall|i: int| 0 <= i < rest.len() ==> rest[i] == fbe[i + 1]);
        assert(buckets_wf(rest)) by {
            assert(forall|i: int, k: int|
                0 <= i < rest.len() && 0 <= k < rest[i].1.len() ==> ext_of(#[trigger] rest[i].1[k])
                    == rest[i].0);
        }
        vstd::seq_lib::lemma_multiset_commutative(fbe[0].1, bucket_all(rest));
        if fbe[0].0 == e {
            assert(bucket_idx(fbe, e) == 0);
            assert(bucket_files(fbe, e) == fbe[0].1);
            if ext_of(f) == e {
                assert(forall|i: int| 0 <= i < rest.len() ==> rest[i].0 != e);
                lemma_bucket_all_zero(rest, f);
            } else {
                assert(!fbe[0].1.contains(f)) by {
                    if fbe[0].1.contains(f) {
                        let k = choose|k: int| 0 <= k < fbe[0].1.len() && fbe[0].1[k] == f;
                        assert(ext_of(fbe[0].1[k]) == fbe[0].0);
                    }
                }
                assert(fbe[0].1.to_multiset().count(f) == 0);
            }
        } else {
            lemma_bucket_files_count(rest, e, f);
            lemma_bucket_idx(fbe, e);
            lemma_bucket_idx(rest, e);
            if bucket_idx(fbe, e) >= 0 {
                assert(bucket_idx(fbe, e) == bucket_idx(rest, e) + 1);
                assert(bucket_files(fbe, e) == bucket_files(rest, e));
            } else {
                assert(bucket_idx(rest, e) == -1);
                assert(bucket_files(fbe, e) == bucket_files(rest, e));
            }
            if ext_of(f) == e {
                assert(!fbe[0].1.contains(f)) by {
                    if fbe[0].1.contains(f) {
                        let k = choose|k: int| 0 <= k < fbe[0].1.len() && fbe[0].1[k] == f;
                        assert(ext_of(fbe[0].1[k]) == fbe[0].0);
                    }
                }
                assert(fbe[0].1.to_multiset().count(f) == 0);
            }
        }
    }
}

/// For a well-formed index, the files found by extension `e` are exactly
/// the indexed files whose extension is `e`, with multiplicity: nothing
/// is missed, nothing is duplicated, and nothing of another extension is
/// returned.
pub proof fn lemma_find_all_complete(d: DirectoryV, e: Seq<char>, f: Seq<char>)
    requires
        dir_wf(d),
    ensures
        spec_find_all(d, e).to_multiset().count(f) == if ext_of(f) == e {
            all_files(d).to_multiset().count(f)
        } else {
            0nat
        },
    decreases d, 0int,
{
    vstd::seq_lib::lemma_multiset_commutative(
        bucket_files(d.files_by_extension, e),
        find_all_dirs(d.directories, 0, e),
    );
    vstd::seq_lib::lemma_multiset_commutative(
        bucket_all(d.files_by_extension),
        all_files_dirs(d.directories, 0),
    );
    lemma_bucket_files_count(d.files_by_extension, e, f);
    lemma_find_all_dirs_complete(d.directories, 0, e, f);
}

/// The children's part of the completeness law.
proof fn lemma_find_all_dirs_complete(ds: Seq<DirectoryV>, i: int, e: Seq<char>, f: Seq<char>)
    requires
        dirs_wf(ds, i),
        0 <= i,
    ensures
        find_all_dirs(ds, i, e).to_multiset().count(f) == if ext_of(f) == e {
            all_files_dirs(ds, i).to_multiset().count(f)
        } else {
            0nat
        },
    decreases ds, ds.len() - i + 1,
{
    broadcast use vstd::seq_lib::group_to_multiset_ensures;

    if i >= ds.len() {
        assert(find_all_dirs(ds, i, e).to_multiset().count(f) == 0);
        assert(all_files_dirs(ds, i).to_multiset().count(f) == 0);
    } else {
        vstd::seq_lib::lemma_multiset_commutative(spec_find_all(ds[i], e), find_all_dirs(ds, i + 1, e));
        vstd::seq_lib::lemma_multiset_commutative(all_files(ds[i]), all_files_dirs(ds, i + 1));
        lemma_find_all_complete(ds[i], e, f);
        lemma_find_all_dirs_complete(ds, i + 1, e, f);
    }
}

/// Grouping preserves well-formed groups.
proof fn lemma_group_wf(fs: Seq<Seq<char>>, i: int, acc: Seq<(Seq<char>, Seq<Seq<char>>)>)
    requires
        buckets_wf(acc),
    ensures
        buckets_wf(group_from(fs, i, acc)),
    decreases fs.len() - i,
{
    if 0 <= i < fs.len() {
        let e = ext_of(fs[i]);
        let nacc = bucket_add(acc, e, fs[i]);
        assert(buckets_wf(nacc)) by {
            lemma_bucket_idx(acc, e);
            let j = bucket_idx(acc, e);
            if j >= 0 {
                assert(forall|x: int| 0 <= x < nacc.len() && x != j ==> nacc[x] == acc[x]);
                assert(nacc[j] == (e, acc[j].1.push(fs[i])));
                assert forall|x: int, k: int|
                    0 <= x < nacc.len() && 0 <= k < nacc[x].1.len() implies ext_of(
                    #[trigger] nacc[x].1[k],
                ) == nacc[x].0 by {
                    if x == j {
                        if k < acc[j].1.len() {
                            assert(nacc[x].1[k] == acc[j].1[k]);
                        } else {
                            assert(nacc[x].1[k] == fs[i]);
                        }
                    }
                }
            } else {
                assert(forall|x: int| 0 <= x < acc.len() ==> nacc[x] == acc[x]);
                assert(nacc[acc.len() as int] == (e, seq![fs[i]]));
                assert forall|x: int, k: int|
                    0 <= x < nacc.len() && 0 <= k < nacc[x].1.len() implies ext_of(
                    #[trigger] nacc[x].1[k],
                ) == nacc[x].0 by {
                    if x == acc.len() {
                        assert(nacc[x].1[k] == fs[i]);
                    }
                }
            }
        }
        lemma_group_wf(fs, i + 1, nacc);
    }
}

/// The children from `j` on of the well-formed kind, given each is.
proof fn lemma_dirs_wf_from(ds: Seq<DirectoryV>, j: int)
    requires
        forall|k: int| 0 <= k < ds.len() ==> dir_wf(#[trigger] ds[k]),
        0 <= j,
    ensures
        dirs_wf(ds, j),
    decreases ds.len() - j + 1,
{
    if j < ds.len() {
        lemma_dirs_wf_from(ds, j + 1);
    }
}

/// What the index builds is well formed.
pub proof fn lemma_index_wf(raw: RawDirV)
    ensures
        dir_wf(spec_index(raw)),
    decreases raw, 1int,
{
    lemma_group_wf(raw.files, 0, Seq::empty());
    lemma_index_subdirs_wf(raw.subdirs, 0);
    lemma_dirs_wf_from(spec_index_subdirs(raw.subdirs, 0), 0);
}

/// Each indexed child is well formed.
proof fn lemma_index_subdirs_wf(ds: Seq<RawDirV>, i: int)
    requires
        0 <= i,
    ensures
        forall|k: int|
            0 <= k < spec_index_subdirs(ds, i).len() ==> dir_wf(
                #[trigger] spec_index_subdirs(ds, i)[k],
            ),
    decreases ds, ds.len() - i + 1,
{
    if i < ds.len() {
        lemma_index_subdirs_wf(ds, i + 1);
        if file_name(ds[i].base) == git_name() {
            assert(spec_index_subdirs(ds, i) == spec_index_subdirs(ds, i + 1));
            assert forall|k: int| 0 <= k < spec_index_subdirs(ds, i).len() implies dir_wf(
                #[trigger] spec_index_subdirs(ds, i)[k],
            ) by {
                assert(spec_index_subdirs(ds, i)[k] == spec_index_subdirs(ds, i + 1)[k]);
            }
        } else {
            lemma_index_wf(ds[i]);
            assert forall|k: int| 0 <= k < spec_index_subdirs(ds, i).len() implies dir_wf(
                #[trigger] spec_index_subdirs(ds, i)[k],
            ) by {
                if k == 0 {
                    assert(spec_index_subdirs(ds, i)[0] == spec_index(ds[i]));
                } else {
                    assert(spec_index_subdirs(ds, i)[k] == spec_index_subdirs(ds, i + 1)[k - 1]);
                }
            }
        }
    }
}

} // verus!
