use vstd::prelude::*;

use crate::fs::{Directory, DirectoryV, bucket_files, spec_get_dir, strs_view};
use crate::path::{
    comps_prefix, is_absolute, join_comps, path_comps, split_comps, strip_ext, strip_ext_chars,
};
use crate::text::{chars_string, str_chars};

verus! {

/// The document paths of this directory's `md` group, without their
/// extension and relative to the directory's base; one not under the base
/// is left out (an index built from a real tree never holds one).
pub open spec fn spec_get_paths(files: Seq<Seq<char>>, bc: Seq<Seq<char>>, i: int) -> Seq<Seq<char>>
    decreases files.len() - i,
{
    if i < 0 || i >= files.len() {
        Seq::empty()
    } else {
        let sc = path_comps(strip_ext(files[i]));
        let rest = spec_get_paths(files, bc, i + 1);
        if comps_prefix(bc, sc) {
            seq![join_comps(sc.skip(bc.len() as int))] + rest
        } else {
            rest
        }
    }
}

/// Lists the indexed documents of `dir` itself, extension-less and
/// relative to its base.
pub fn get_paths(dir: &Directory) -> (r: Vec<String>)
    ensures
        strs_view(r@) == spec_get_paths(
            bucket_files(dir@.files_by_extension, "md"@),
            path_comps(dir@.base),
            0,
        ),
{
    let key = String::from_str("md");
    let bvch = str_chars(dir.base.as_str());
    let bcomps = split_comps(&bvch);
    let ghost bc = path_comps(dir@.base);
    let files = dir.find_all_md_bucket(&key);
    let ghost fv = strs_view(files@);
    let mut out: Vec<String> = Vec::new();
    let mut i: usize = 0;
    let n = files.len();
    proof {
        assert(strs_view(out@) =~= Seq::<Seq<char>>::empty());
        assert(strs_view(out@) + spec_get_paths(fv, bc, 0) =~= spec_get_paths(fv, bc, 0));
    }
    while i < n
        invariant
            i <= n,
            n == files@.len(),
            fv == strs_view(files@),
            fv.len() == n,
            bc == path_comps(dir@.base),
            bcomps.deep_view() == bc,
            strs_view(out@) + spec_get_paths(fv, bc, i as int) == spec_get_paths(fv, bc, 0),
        decreases n - i,
    {
        proof {
            assert(fv[i as int] == files@[i as int]@);
        }
        let fvch = str_chars(files[i].as_str());
        let noext = strip_ext_chars(&fvch);
        let ncomps = split_comps(&noext);
        let ghost sc = path_comps(strip_ext(fv[i as int]));
        if crate::path::comps_prefix_upto(&bcomps, bcomps.len(), &ncomps) {
            proof {
                assert(bc.take(bc.len() as int) =~= bc);
            }
            let rel = crate::path::join_comps_from(&ncomps, bcomps.len());
            let ghost o0 = strs_view(out@);
            let ghost ovec = out@;
            let relstr = chars_string(&rel);
            let ghost grel = relstr;
            out.push(relstr);
            proof {
                assert(out@ == ovec.push(grel));
                assert(strs_view(out@) =~= o0.push(grel@));
                assert(o0.push(join_comps(sc.skip(bc.len() as int))) + spec_get_paths(
                    fv,
                    bc,
                    i + 1,
                ) =~= o0 + (seq![join_comps(sc.skip(bc.len() as int))] + spec_get_paths(
                    fv,
                    bc,
                    i + 1,
                )));
            }
        } else {
            proof {
                assert(bc.take(bc.len() as int) =~= bc);
            }
        }
        i = i + 1;
    }
    proof {
        assert(spec_get_paths(fv, bc, n as int) =~= Seq::<Seq<char>>::empty());
        assert(strs_view(out@) + Seq::<Seq<char>>::empty() =~= strs_view(out@));
    }
    out
}

impl Directory {
    /// Hands out the files of one extension group of this directory
    /// alone, without descending.
    pub fn find_all_md_bucket(&self, key: &String) -> (r: Vec<String>)
        ensures
            strs_view(r@) == bucket_files(self@.files_by_extension, key@),
    {
        let ghost fbev = crate::fs::buckets_view(self.files_by_extension@);
        match crate::fs::find_bucket(&self.files_by_extension, key) {
            Some(j) => {
                proof {
                    crate::fs::lemma_bucket_idx(fbev, key@);
                }
                let bucket = &self.files_by_extension[j].1;
                let mut ret: Vec<String> = Vec::new();
                let mut i: usize = 0;
                proof {
                    assert(fbev[j as int].1 == strs_view(bucket@));
                    assert(strs_view(ret@) =~= strs_view(bucket@).take(0));
                }
                while i < bucket.len()
                    invariant
                        i <= bucket@.len(),
                        strs_view(bucket@).len() == bucket@.len(),
                        strs_view(ret@) == strs_view(bucket@).take(i as int),
                    decreases bucket@.len() - i,
                {
                    let ghost rvec = ret@;
                    let c = bucket[i].clone();
                    let ghost gc = c;
                    ret.push(c);
                    proof {
                        assert(gc == bucket@[i as int]);
                        assert(ret@ == rvec.push(gc));
                        assert(strs_view(rvec).len() == rvec.len());
                        assert(rvec.len() == i as int);
                        assert forall|k: int| 0 <= k < i + 1 implies strs_view(ret@)[k]
                            == strs_view(bucket@).take(i + 1)[k] by {
                            assert(strs_view(ret@)[k] == ret@[k]@);
                            assert(strs_view(bucket@).take(i + 1)[k] == bucket@[k]@);
                            if k < i {
                                assert(ret@[k] == rvec[k]);
                                assert(strs_view(rvec)[k] == strs_view(bucket@).take(i as int)[k]);
                                assert(strs_view(rvec)[k] == rvec[k]@);
                            } else {
                                assert(ret@[k] == gc);
                            }
                        }
                        assert(strs_view(ret@) =~= strs_view(bucket@).take(i + 1));
                    }
                    i = i + 1;
                }
                proof {
                    assert(strs_view(bucket@).take(bucket@.len() as int) =~= strs_view(bucket@));
                }
                ret
            },
            None => {
                let ret: Vec<String> = Vec::new();
                proof {
                    assert(strs_view(ret@) =~= Seq::<Seq<char>>::empty());
                }
                ret
            },
        }
    }
}

/// The anchor of a sibling document.
pub open spec fn link_current(name: Seq<char>) -> Seq<char> {
    "<a href=\""@ + name + ".html\">"@ + name + "</a>"@
}

/// The anchor of a child document under `cur`.
pub open spec fn link_child(cur: Seq<char>, name: Seq<char>) -> Seq<char> {
    "<a href=\""@ + cur + "/"@ + name + ".html\">"@ + name + "</a>"@
}

/// The sibling list: one anchor per listed path, the current document
/// itself left out.
pub open spec fn spec_make_current(paths: Seq<Seq<char>>, i: int, current_bit: Seq<char>) -> Seq<
    char,
>
    decreases paths.len() - i,
{
    if i < 0 || i >= paths.len() {
        Seq::empty()
    } else {
        let rest = spec_make_current(paths, i + 1, current_bit);
        if paths[i] == current_bit {
            rest
        } else {
            link_current(paths[i]) + rest
        }
    }
}

/// The child list: one anchor per listed path, under `cur`.
pub open spec fn spec_make_children(paths: Seq<Seq<char>>, i: int, cur: Seq<char>) -> Seq<char>
    decreases paths.len() - i,
{
    if i < 0 || i >= paths.len() {
        Seq::empty()
    } else {
        link_child(cur, paths[i]) + spec_make_children(paths, i + 1, cur)
    }
}

/// Builds the sibling list of `dir`, leaving out `current_bit`.
pub fn make_current(current_bit: String, dir: &Directory) -> (r: String)
    ensures
        r@ == spec_make_current(
            spec_get_paths(
                bucket_files(dir@.files_by_extension, "md"@),
                path_comps(dir@.base),
                0,
            ),
            0,
            current_bit@,
        ),
{
    let paths = get_paths(dir);
    let ghost pv = strs_view(paths@);
    let mut out = String::new();
    let mut i: usize = 0;
    let n = paths.len();
    proof {
        assert(out@ + spec_make_current(pv, 0, current_bit@) =~= spec_make_current(
            pv,
            0,
            current_bit@,
        ));
    }
    while i < n
        invariant
            i <= n,
            n == paths@.len(),
            pv == strs_view(paths@),
            pv.len() == n,
            out@ + spec_make_current(pv, i as int, current_bit@) == spec_make_current(
                pv,
                0,
                current_bit@,
            ),
        decreases n - i,
    {
        proof {
            assert(pv[i as int] == paths@[i as int]@);
        }
        if !current_bit.eq(&paths[i]) {
            let ghost o0 = out@;
            out.append("<a href=\"");
            out.append(paths[i].as_str());
            out.append(".html\">");
            out.append(paths[i].as_str());
            out.append("</a>");
            proof {
                assert(out@ =~= o0 + link_current(pv[i as int]));
                assert((o0 + link_current(pv[i as int])) + spec_make_current(
                    pv,
                    i + 1,
                    current_bit@,
                ) =~= o0 + (link_current(pv[i as int]) + spec_make_current(pv, i + 1, current_bit@)));
            }
        }
        i = i + 1;
    }
    proof {
        assert(spec_make_current(pv, n as int, current_bit@) =~= Seq::<char>::empty());
        assert(out@ + Seq::<char>::empty() =~= out@);
    }
    out
}

/// Builds the child list of `dir` under the segment `current`.
pub fn make_children(current: &str, dir: &Directory) -> (r: String)
    ensures
        r@ == spec_make_children(
            spec_get_paths(
                bucket_files(dir@.files_by_extension, "md"@),
                path_comps(dir@.base),
                0,
            ),
            0,
            current@,
        ),
{
    let paths = get_paths(dir);
    let ghost pv = strs_view(paths@);
    let mut out = String::new();
    let mut i: usize = 0;
    let n = paths.len();
    proof {
        assert(out@ + spec_make_children(pv, 0, current@) =~= spec_make_children(pv, 0, current@));
    }
    while i < n
        invariant
            i <= n,
            n == paths@.len(),
            pv == strs_view(paths@),
            pv.len() == n,
            out@ + spec_make_children(pv, i as int, current@) == spec_make_children(
                pv,
                0,
                current@,
            ),
        decreases n - i,
    {
        proof {
            assert(pv[i as int] == paths@[i as int]@);
        }
        let ghost o0 = out@;
        out.append("<a href=\"");
        out.append(current);
        out.append("/");
        out.append(paths[i].as_str());
        out.append(".html\">");
        out.append(paths[i].as_str());
        out.append("</a>");
        proof {
            assert(out@ =~= o0 + link_child(current@, pv[i as int]));
            assert((o0 + link_child(current@, pv[i as int])) + spec_make_children(
                pv,
                i + 1,
                current@,
            ) =~= o0 + (link_child(current@, pv[i as int]) + spec_make_children(pv, i + 1, current@)));
        }
        i = i + 1;
    }
    proof {
        assert(spec_make_children(pv, n as int, current@) =~= Seq::<char>::empty());
        assert(out@ + Seq::<char>::empty() =~= out@);
    }
    out
}

/// The navigation pieces of one document: the name of the directory it
/// sits in (when that directory's parent is indexed too), and the anchor
/// list of either its children (when a directory named like the document
/// exists) or its siblings. Nothing is produced when the holding
/// directory is not under the root.
pub open spec fn spec_find_friends(root: DirectoryV, from: Seq<char>) -> Option<
    (Option<Seq<char>>, Seq<char>),
> {
    let search = strip_ext(from);
    let sc = path_comps(search);
    let children = spec_get_dir(root, search);
    let children_last = sc.last();
    let s2 = seq!['/'] + join_comps(sc.drop_last());
    let current = spec_get_dir(root, s2);
    let current_last = sc[sc.len() - 2];
    let s3 = seq!['/'] + join_comps(sc.drop_last().drop_last());
    let parent = spec_get_dir(root, s3);
    let nest = if parent is Some {
        Some(current_last)
    } else {
        None
    };
    match children {
        Some(ch) => Some(
            (
                nest,
                spec_make_children(
                    spec_get_paths(
                        bucket_files(ch.files_by_extension, "md"@),
                        path_comps(ch.base),
                        0,
                    ),
                    0,
                    children_last,
                ),
            ),
        ),
        None => match current {
            Some(cur) => Some(
                (
                    nest,
                    spec_make_current(
                        spec_get_paths(
                            bucket_files(cur.files_by_extension, "md"@),
                            path_comps(cur.base),
                            0,
                        ),
                        0,
                        children_last,
                    ),
                ),
            ),
            None => None,
        },
    }
}

/// Finds the navigation pieces of one document under the index root.
pub fn find_friends<'r>(root: &'r Directory, from: &str) -> (r: Option<(Option<String>, String)>)
    requires
        is_absolute(from@),
        path_comps(strip_ext(from@)).len() >= 2,
    ensures
        r is Some <==> spec_find_friends(root@, from@) is Some,
        r matches Some(p) ==> {
            let sp = spec_find_friends(root@, from@)->Some_0;
            &&& (match p.0 {
                Some(s) => sp.0 == Some(s@),
                None => sp.0 is None,
            })
            &&& p.1@ == sp.1
        },
{
    let fromv = str_chars(from);
    let searchv = strip_ext_chars(&fromv);
    let search_str = chars_string(&searchv);
    let comps = split_comps(&searchv);
    let ghost sc = path_comps(strip_ext(from@));
    proof {
        assert(comps.deep_view() == sc);
        assert(comps.deep_view().len() == comps@.len());
    }
    let children = root.get_directory(search_str.as_str());
    let children_last = chars_string(&comps[comps.len() - 1]);
    proof {
        assert(comps.deep_view()[comps@.len() - 1] == comps@[comps@.len() - 1]@);
        assert(children_last@ == sc.last());
    }
    let mut s2v: Vec<char> = Vec::new();
    s2v.push('/');
    let mut tail2 = crate::path::join_comps_from_upto(&comps, 0, comps.len() - 1);
    s2v.append(&mut tail2);
    let s2 = chars_string(&s2v);
    proof {
        assert(comps.deep_view().subrange(0, sc.len() - 1) =~= sc.drop_last());
        assert(s2@ =~= seq!['/'] + join_comps(sc.drop_last()));
    }
    let current = root.get_directory(s2.as_str());
    let current_last = chars_string(&comps[comps.len() - 2]);
    proof {
        assert(comps.deep_view()[comps@.len() - 2] == comps@[comps@.len() - 2]@);
        assert(current_last@ == sc[sc.len() - 2]);
    }
    let mut s3v: Vec<char> = Vec::new();
    s3v.push('/');
    let mut tail3 = crate::path::join_comps_from_upto(&comps, 0, comps.len() - 2);
    s3v.append(&mut tail3);
    let s3 = chars_string(&s3v);
    proof {
        assert(comps.deep_view().subrange(0, sc.len() - 2) =~= sc.drop_last().drop_last());
        assert(s3@ =~= seq!['/'] + join_comps(sc.drop_last().drop_last()));
    }
    let parent = root.get_directory(s3.as_str());
    let has_parent = parent.is_some();
    match children {
        Some(ch) => {
            let body = make_children(children_last.as_str(), ch);
            if has_parent {
                Some((Some(current_last), body))
            } else {
                Some((None, body))
            }
        },
        None => match current {
            Some(cur) => {
                let body = make_current(children_last, cur);
                if has_parent {
                    Some((Some(current_last), body))
                } else {
                    Some((None, body))
                }
            },
            None => None,
        },
    }
}

} // verus!
