//! Static resource files served under a path prefix, and how a request path
//! resolves to the file path it names.

use std::collections::HashMap;
use std::rc::Rc;
use vstd::prelude::*;
use vstd::string::StrSliceExecFns;

verus! {

/// Static resource files, keyed by their path, served under `path`.
pub struct ResourceFiles {
    path: String,
    files: Rc<HashMap<String, String>>,
}

/// The service that answers requests for the files of a `ResourceFiles`.
pub struct ResourceFilesService {
    files: Rc<HashMap<String, String>>,
}

/// Why a request path was refused.
#[derive(Debug, PartialEq, Eq, Structural)]
pub enum UriSegmentError {
    /// The segment started with the wrapped invalid character.
    BadStart(char),
    /// The segment contained the wrapped invalid character.
    BadChar(char),
    /// The segment ended with the wrapped invalid character.
    BadEnd(char),
}

/// `Rc::clone`: a second pointer to the same value.
#[verifier::external_body]
fn share_files(files: &Rc<HashMap<String, String>>) -> (r: Rc<HashMap<String, String>>)
    ensures
        *r == **files,
{
    Rc::clone(files)
}

impl ResourceFiles {
    /// The path prefix the files are served under.
    pub closed spec fn spec_path(&self) -> Seq<char> {
        self.path@
    }

    /// The files, by path.
    pub closed spec fn spec_files(&self) -> Map<String, String> {
        (*self.files)@
    }

    /// Serves `files` under `path`.
    pub fn new(path: &str, files: HashMap<String, String>) -> (r: Self)
        ensures
            r.spec_path() == path@,
            r.spec_files() == files@,
    {
        ResourceFiles { path: path.to_owned(), files: Rc::new(files) }
    }

    /// The service that answers requests; it shares the files with `self`.
    pub fn new_service(&self) -> (r: ResourceFilesService)
        ensures
            r.spec_files() == self.spec_files(),
    {
        ResourceFilesService { files: share_files(&self.files) }
    }
}

impl ResourceFilesService {
    /// The files, by path.
    pub closed spec fn spec_files(&self) -> Map<String, String> {
        (*self.files)@
    }
}

/// Collects the resources of a directory; there is nothing to collect.
pub fn collect_resources() {
}

/// The segments of `path` between its `'/'` separators, in order; empty
/// segments included, so there is always at least one.
pub open spec fn segments(path: Seq<char>) -> Seq<Seq<char>>
    decreases path.len(),
{
    if path.len() == 0 {
        seq![Seq::empty()]
    } else if path.last() == '/' {
        segments(path.drop_last()).push(Seq::empty())
    } else {
        let s = segments(path.drop_last());
        s.update(s.len() - 1, s.last().push(path.last()))
    }
}

/// What one segment does to the path built so far: `..` goes up a level,
/// an empty segment is skipped, one that starts with `.` or `*` or ends
/// with `:`, `>` or `<` is refused, and any other is appended.
pub open spec fn apply_segment(buf: Seq<Seq<char>>, seg: Seq<char>) -> Result<
    Seq<Seq<char>>,
    UriSegmentError,
> {
    if seg == seq!['.', '.'] {
        Ok(if buf.len() > 0 { buf.drop_last() } else { buf })
    } else if seg.len() > 0 && seg[0] == '.' {
        Err(UriSegmentError::BadStart('.'))
    } else if seg.len() > 0 && seg[0] == '*' {
        Err(UriSegmentError::BadStart('*'))
    } else if seg.len() > 0 && seg.last() == ':' {
        Err(UriSegmentError::BadEnd(':'))
    } else if seg.len() > 0 && seg.last() == '>' {
        Err(UriSegmentError::BadEnd('>'))
    } else if seg.len() > 0 && seg.last() == '<' {
        Err(UriSegmentError::BadEnd('<'))
    } else if seg.len() == 0 {
        Ok(buf)
    } else {
        Ok(buf.push(seg))
    }
}

/// The segments applied in order from an empty path; the first refusal wins.
pub open spec fn resolve(segs: Seq<Seq<char>>) -> Result<Seq<Seq<char>>, UriSegmentError>
    decreases segs.len(),
{
    if segs.len() == 0 {
        Ok(Seq::empty())
    } else {
        match resolve(segs.drop_last()) {
            Ok(buf) => apply_segment(buf, segs.last()),
            Err(e) => Err(e),
        }
    }
}

/// The character views of `v`.
pub open spec fn strings_view(v: Seq<String>) -> Seq<Seq<char>> {
    v.map_values(|s: String| s@)
}

/// The state after the segments applied so far: the path built, or the
/// first refusal.
pub open spec fn scan_state(buf: Seq<String>, err: Option<UriSegmentError>) -> Result<
    Seq<Seq<char>>,
    UriSegmentError,
> {
    match err {
        Some(e) => Err(e),
        None => Ok(strings_view(buf)),
    }
}

/// Applies the segment `path[start..end]` to the state, unless a segment
/// before it was refused.
fn close_segment(
    path: &str,
    start: usize,
    end: usize,
    buf: &mut Vec<String>,
    err: &mut Option<UriSegmentError>,
)
    requires
        start <= end <= path@.len(),
    ensures
        scan_state(final(buf)@, *final(err)) == match *old(err) {
            Some(e) => Err(e),
            None => apply_segment(strings_view(old(buf)@), path@.subrange(start as int, end as int)),
        },
{
    if err.is_some() {
        return;
    }
    let ghost prev = strings_view(buf@);
    let ghost seg = path@.subrange(start as int, end as int);
    let len: usize = end - start;
    if len == 2 && path.get_char(start) == '.' && path.get_char(start + 1) == '.' {
        proof {
            assert(seg =~= seq!['.', '.']);
        }
        if buf.len() > 0 {
            buf.pop();
            proof {
                assert(strings_view(buf@) =~= prev.drop_last());
            }
        }
        return;
    }
    proof {
        if seg == seq!['.', '.'] {
            assert(seg[0] == path@[start as int]);
            assert(seg[1] == path@[start + 1]);
            assert(false);
        }
    }
    if len == 0 {
        return;
    }
    assert(seg[0] == path@[start as int]);
    assert(seg.last() == path@[end - 1]);
    if path.get_char(start) == '.' {
        *err = Some(UriSegmentError::BadStart('.'));
    } else if path.get_char(start) == '*' {
        *err = Some(UriSegmentError::BadStart('*'));
    } else if path.get_char(end - 1) == ':' {
        *err = Some(UriSegmentError::BadEnd(':'));
    } else if path.get_char(end - 1) == '>' {
        *err = Some(UriSegmentError::BadEnd('>'));
    } else if path.get_char(end - 1) == '<' {
        *err = Some(UriSegmentError::BadEnd('<'));
    } else {
        let piece: String = path.substring_char(start, end).to_owned();
        buf.push(piece);
        proof {
            assert(strings_view(buf@) =~= prev.push(seg));
        }
    }
}

/// The components of the file path that the request path `path` names:
/// its segments with `..` resolved, empty ones dropped; `Err` names the
/// first segment that is refused.
pub fn get_pathbuf(path: &str) -> (r: Result<Vec<String>, UriSegmentError>)
    ensures
        match r {
            Ok(buf) => resolve(segments(path@)) == Ok::<_, UriSegmentError>(strings_view(buf@)),
            Err(e) => resolve(segments(path@)) == Err::<Seq<Seq<char>>, _>(e),
        },
{
    let n: usize = path.unicode_len();
    let mut buf: Vec<String> = Vec::new();
    let mut err: Option<UriSegmentError> = None;
    let mut start: usize = 0;
    let mut i: usize = 0;
    proof {
        assert(path@.take(0) =~= Seq::<char>::empty());
        assert(strings_view(buf@) =~= Seq::<Seq<char>>::empty());
    }
    while i < n
        invariant
            n == path@.len(),
            start <= i <= n,
            ({
                let segs = segments(path@.take(i as int));
                &&& segs.len() >= 1
                &&& segs.last() == path@.subrange(start as int, i as int)
                &&& resolve(segs.drop_last()) == scan_state(buf@, err)
            }),
        decreases n - i,
    {
        let ghost segs = segments(path@.take(i as int));
        let ghost seg = path@.subrange(start as int, i as int);
        let c = path.get_char(i);
        proof {
            assert(path@.take(i + 1).drop_last() =~= path@.take(i as int));
            assert(path@.take(i + 1).last() == c);
            assert(segs.drop_last().push(segs.last()) =~= segs);
        }
        if c == '/' {
            close_segment(path, start, i, &mut buf, &mut err);
            proof {
                assert(segments(path@.take(i + 1)).drop_last() =~= segs);
                assert(path@.subrange(i + 1, i + 1) =~= Seq::<char>::empty());
            }
            start = i + 1;
        } else {
            proof {
                let next = segments(path@.take(i + 1));
                assert(next =~= segs.update(segs.len() - 1, segs.last().push(c)));
                assert(next.drop_last() =~= segs.drop_last());
                assert(path@.subrange(start as int, i + 1) =~= seg.push(c));
            }
        }
        i = i + 1;
    }
    let ghost segs = segments(path@.take(n as int));
    proof {
        assert(path@.take(n as int) =~= path@);
        assert(segs.drop_last().push(segs.last()) =~= segs);
    }
    close_segment(path, start, n, &mut buf, &mut err);
    match err {
        Some(e) => Err(e),
        None => Ok(buf),
    }
}

/// A component of a resolved path: not empty, not starting with `.` or `*`,
/// not ending with `:`, `>` or `<`.
pub open spec fn clean_component(seg: Seq<char>) -> bool {
    &&& seg.len() > 0
    &&& seg[0] != '.'
    &&& seg[0] != '*'
    &&& seg.last() != ':'
    &&& seg.last() != '>'
    &&& seg.last() != '<'
}

/// A resolved request path never leaves the directory it is served from:
/// every component of it is clean, so none is `.` or `..`.
pub proof fn lemma_resolved_components_clean(segs: Seq<Seq<char>>)
    ensures
        resolve(segs) matches Ok(buf) ==> forall|i: int| 0 <= i < buf.len() ==> clean_component(#[trigger] buf[i]),
    decreases segs.len(),
{
    if segs.len() > 0 {
        lemma_resolved_components_clean(segs.drop_last());
        match resolve(segs.drop_last()) {
            Ok(prev) => {
                let seg = segs.last();
                if let Ok(buf) = apply_segment(prev, seg) {
                    assert forall|i: int| 0 <= i < buf.len() implies clean_component(#[trigger] buf[i]) by {
                        if seg == seq!['.', '.'] {
                            if prev.len() > 0 {
                                assert(buf[i] == prev[i]);
                            }
                        } else if i < prev.len() {
                            assert(buf[i] == prev[i]);
                        }
                    }
                }
            },
            Err(_) => {},
        }
    }
}

} // verus!
