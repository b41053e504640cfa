//! Sanitizing of untrusted request paths against a root directory.
//!
//! A path is read as a sequence of segments separated by `/`. Empty segments
//! (from repeated or trailing separators) and `.` segments change nothing; a
//! `..` segment removes the last segment appended so far; any other segment is
//! appended. A path that starts with `/` is absolute and never accepted.
use vstd::prelude::*;

verus! {

/// The segments of `s` between its `/` separators, in order, empty ones included.
pub open spec fn split_segments(s: Seq<char>) -> Seq<Seq<char>>
    decreases s.len(),
{
    if s.len() == 0 {
        seq![Seq::<char>::empty()]
    } else {
        let prev = split_segments(s.drop_last());
        if s.last() == '/' {
            prev.push(Seq::<char>::empty())
        } else {
            prev.update(prev.len() - 1, prev.last().push(s.last()))
        }
    }
}

pub open spec fn is_absolute(s: Seq<char>) -> bool {
    s.len() > 0 && s[0] == '/'
}

pub open spec fn is_parent_segment(seg: Seq<char>) -> bool {
    seg == seq!['.', '.']
}

pub open spec fn is_current_segment(seg: Seq<char>) -> bool {
    seg == seq!['.']
}

/// An ordinary name: not empty, not `.` or `..`, and free of separators.
pub open spec fn is_normal_segment(seg: Seq<char>) -> bool {
    &&& seg.len() > 0
    &&& !is_parent_segment(seg)
    &&& !is_current_segment(seg)
    &&& forall|i: int| 0 <= i < seg.len() ==> seg[i] != '/'
}

/// One segment applied to the segments accumulated below the root.
pub open spec fn apply_segment(acc: Option<Seq<Seq<char>>>, seg: Seq<char>) -> Option<
    Seq<Seq<char>>,
> {
    match acc {
        None => None,
        Some(a) => if is_parent_segment(seg) {
            if a.len() == 0 {
                None
            } else {
                Some(a.drop_last())
            }
        } else if seg.len() == 0 || is_current_segment(seg) {
            Some(a)
        } else {
            Some(a.push(seg))
        },
    }
}

/// The segments below the root reached by walking `segs` from the root, or
/// `None` where a `..` would leave the root.
pub open spec fn walk_segments(segs: Seq<Seq<char>>) -> Option<Seq<Seq<char>>>
    decreases segs.len(),
{
    if segs.len() == 0 {
        Some(Seq::<Seq<char>>::empty())
    } else {
        apply_segment(walk_segments(segs.drop_last()), segs.last())
    }
}

/// The segments below the root that `requested` designates, or `None` where it
/// is absolute or climbs above the root.
pub open spec fn sanitized_segments(requested: Seq<char>) -> Option<Seq<Seq<char>>> {
    if is_absolute(requested) {
        None
    } else {
        walk_segments(split_segments(requested))
    }
}

pub open spec fn string_views(v: Seq<String>) -> Seq<Seq<char>> {
    v.map_values(|s: String| s@)
}

/// `base` with `seg` appended as one more path segment: a separator is put in
/// between unless `base` already ends with one.
pub open spec fn join_segment(base: Seq<char>, seg: Seq<char>) -> Seq<char> {
    if base.len() > 0 && base.last() == '/' {
        base + seg
    } else {
        base.push('/') + seg
    }
}

/// The path text of `root` followed by `segs`.
pub open spec fn joined_path(root: Seq<char>, segs: Seq<Seq<char>>) -> Seq<char>
    decreases segs.len(),
{
    if segs.len() == 0 {
        root
    } else {
        join_segment(joined_path(root, segs.drop_last()), segs.last())
    }
}

/// A path confined to a root directory: the root followed by ordinary names.
pub struct SanitizedPath {
    root: String,
    segments: Vec<String>,
}

impl SanitizedPath {
    pub closed spec fn root_view(&self) -> Seq<char> {
        self.root@
    }

    pub closed spec fn segments_view(&self) -> Seq<Seq<char>> {
        string_views(self.segments@)
    }

    /// Every segment below the root is an ordinary name, so the path is the
    /// root itself or a descendant of it.
    pub open spec fn wf(&self) -> bool {
        forall|i: int|
            0 <= i < self.segments_view().len() ==> is_normal_segment(
                #[trigger] self.segments_view()[i],
            )
    }
}

/// The segments of `s` between its `/` separators, in order, empty ones included.
pub fn split_path_segments(s: &str) -> (r: Vec<String>)
    ensures
        string_views(r@) == split_segments(s@),
{
    let n = s.unicode_len();
    let mut out: Vec<String> = Vec::new();
    let mut start: usize = 0;
    let mut i: usize = 0;
    assert(s@.take(0) =~= Seq::<char>::empty());
    assert(string_views(out@) =~= Seq::<Seq<char>>::empty());
    assert(split_segments(s@.take(0)) =~= string_views(out@).push(s@.subrange(0, 0)));
    while i < n
        invariant
            n == s@.len(),
            start <= i <= n,
            split_segments(s@.take(i as int)) == string_views(out@).push(
                s@.subrange(start as int, i as int),
            ),
        decreases n - i,
    {
        let c = s.get_char(i);
        let ghost prev = split_segments(s@.take(i as int));
        assert(s@.take(i + 1).drop_last() =~= s@.take(i as int));
        assert(s@.take(i + 1).last() == c);
        if c == '/' {
            let seg = String::from_str(s.substring_char(start, i));
            out.push(seg);
            start = i + 1;
            assert(string_views(out@) =~= prev);
            assert(s@.subrange(start as int, i + 1) =~= Seq::<char>::empty());
            assert(split_segments(s@.take(i + 1)) =~= string_views(out@).push(
                s@.subrange(start as int, i + 1),
            ));
        } else {
            assert(s@.subrange(start as int, i + 1) =~= s@.subrange(start as int, i as int).push(c));
            assert(split_segments(s@.take(i + 1)) =~= string_views(out@).push(
                s@.subrange(start as int, i + 1),
            ));
        }
        i = i + 1;
    }
    let last = String::from_str(s.substring_char(start, n));
    out.push(last);
    assert(s@.take(n as int) =~= s@);
    assert(string_views(out@) =~= split_segments(s@));
    out
}

proof fn lemma_split_has_no_separator(s: Seq<char>)
    ensures
        split_segments(s).len() >= 1,
        forall|k: int, j: int|
            0 <= k < split_segments(s).len() && 0 <= j < split_segments(s)[k].len()
                ==> split_segments(s)[k][j] != '/',
    decreases s.len(),
{
    if s.len() > 0 {
        lemma_split_has_no_separator(s.drop_last());
        let prev = split_segments(s.drop_last());
        if s.last() != '/' {
            assert forall|k: int, j: int|
                0 <= k < split_segments(s).len() && 0 <= j < split_segments(s)[k].len()
                    implies split_segments(s)[k][j] != '/' by {
                if k == prev.len() - 1 && j == prev.last().len() {
                } else if k == prev.len() - 1 {
                    assert(split_segments(s)[k][j] == prev[k][j]);
                } else {
                    assert(split_segments(s)[k] == prev[k]);
                }
            }
        } else {
            assert forall|k: int, j: int|
                0 <= k < split_segments(s).len() && 0 <= j < split_segments(s)[k].len()
                    implies split_segments(s)[k][j] != '/' by {
                assert(k < prev.len());
                assert(split_segments(s)[k] == prev[k]);
            }
        }
    }
}

proof fn lemma_walk_stays_failed(segs: Seq<Seq<char>>, a: int, b: int)
    requires
        0 <= a <= b <= segs.len(),
        walk_segments(segs.take(a)) is None,
    ensures
        walk_segments(segs.take(b)) is None,
    decreases b - a,
{
    if a < b {
        lemma_walk_stays_failed(segs, a, b - 1);
        assert(segs.take(b).drop_last() =~= segs.take(b - 1));
    }
}

/// Whether `seg` is `..`.
fn segment_is_parent(seg: &str) -> (r: bool)
    ensures
        r == is_parent_segment(seg@),
{
    let n = seg.unicode_len();
    let r = n == 2 && seg.get_char(0) == '.' && seg.get_char(1) == '.';
    assert(r ==> seg@ =~= seq!['.', '.']);
    r
}

/// Whether `seg` is `.`.
fn segment_is_current(seg: &str) -> (r: bool)
    ensures
        r == is_current_segment(seg@),
{
    let n = seg.unicode_len();
    let r = n == 1 && seg.get_char(0) == '.';
    assert(r ==> seg@ =~= seq!['.']);
    r
}

/// Whether `seg` is an ordinary name: not empty, not `.` or `..`, no `/` in it.
pub fn segment_is_normal(seg: &str) -> (r: bool)
    ensures
        r == is_normal_segment(seg@),
{
    let n = seg.unicode_len();
    if n == 0 || segment_is_parent(seg) || segment_is_current(seg) {
        return false;
    }
    let mut i: usize = 0;
    while i < n
        invariant
            n == seg@.len(),
            i <= n,
            forall|j: int| 0 <= j < i ==> seg@[j] != '/',
        decreases n - i,
    {
        if seg.get_char(i) == '/' {
            return false;
        }
        i = i + 1;
    }
    true
}

impl SanitizedPath {
    /// Whether this path is `root` itself or lies below it: its root is `root`
    /// and every further segment is an ordinary name.
    pub fn is_within(&self, root: &str) -> (r: bool)
        ensures
            r == (self.root_view() == root@ && self.wf()),
    {
        if self.root.unicode_len() != root.unicode_len() {
            return false;
        }
        let n = root.unicode_len();
        let mut i: usize = 0;
        while i < n
            invariant
                n == root@.len(),
                n == self.root@.len(),
                i <= n,
                forall|j: int| 0 <= j < i ==> self.root@[j] == root@[j],
            decreases n - i,
        {
            if self.root.as_str().get_char(i) != root.get_char(i) {
                return false;
            }
            i = i + 1;
        }
        assert(self.root@ =~= root@);
        let mut k: usize = 0;
        while k < self.segments.len()
            invariant
                k <= self.segments@.len(),
                forall|j: int|
                    0 <= j < k ==> is_normal_segment(#[trigger] self.segments_view()[j]),
            decreases self.segments@.len() - k,
        {
            assert(self.segments_view()[k as int] == self.segments@[k as int]@);
            if !segment_is_normal(self.segments[k].as_str()) {
                return false;
            }
            k = k + 1;
        }
        true
    }
}

/// `r` is what sanitizing `requested` against `base` gives: `None` exactly when
/// the request is refused, else `base` followed by the segments it designates.
pub open spec fn sanitizes_to(base: Seq<char>, requested: Seq<char>, r: Option<SanitizedPath>) -> bool {
    &&& r is None <==> sanitized_segments(requested) is None
    &&& r matches Some(p) ==> {
        &&& p.root_view() == base
        &&& sanitized_segments(requested) == Some(p.segments_view())
        &&& p.wf()
    }
}

/// Confines `requested_path` to `base_path`.
///
/// The segments of the request are walked from the root: ordinary names are
/// appended, `.` and empty segments are skipped, and `..` removes the last name
/// appended. A request that starts with `/`, or whose `..` segments would climb
/// above the root, gives `None`. No file system access takes place.
pub fn sanitize_path(base_path: &str, requested_path: &str) -> (r: Option<SanitizedPath>)
    ensures
        sanitizes_to(base_path@, requested_path@, r),
{
    if requested_path.unicode_len() > 0 && requested_path.get_char(0) == '/' {
        return None;
    }
    let segs = split_path_segments(requested_path);
    proof {
        lemma_split_has_no_separator(requested_path@);
    }
    let ghost all = split_segments(requested_path@);
    let mut acc: Vec<String> = Vec::new();
    let mut i: usize = 0;
    assert(all.take(0) =~= Seq::<Seq<char>>::empty());
    assert(string_views(acc@) =~= Seq::<Seq<char>>::empty());
    while i < segs.len()
        invariant
            all == split_segments(requested_path@),
            string_views(segs@) == all,
            i <= segs@.len(),
            forall|k: int, j: int|
                0 <= k < all.len() && 0 <= j < all[k].len() ==> all[k][j] != '/',
            walk_segments(all.take(i as int)) == Some(string_views(acc@)),
            forall|j: int|
                0 <= j < acc@.len() ==> is_normal_segment(#[trigger] string_views(acc@)[j]),
        decreases segs@.len() - i,
    {
        let seg = segs[i].as_str();
        assert(seg@ == all[i as int]);
        assert(all.take(i + 1).drop_last() =~= all.take(i as int));
        assert(all.take(i + 1).last() == all[i as int]);
        if segment_is_parent(seg) {
            if acc.len() == 0 {
                assert(walk_segments(all.take(i + 1)) is None);
                assert forall|m: int| i < m <= all.len() implies walk_segments(all.take(m)) is None by {
                    lemma_walk_stays_failed(all, i + 1, m);
                }
                assert(all.take(all.len() as int) =~= all);
                return None;
            }
            let ghost before = acc@;
            acc.pop();
            assert(string_views(acc@) =~= string_views(before).drop_last());
        } else if seg.unicode_len() == 0 || segment_is_current(seg) {
        } else {
            let ghost before = acc@;
            acc.push(segs[i].clone());
            assert(string_views(acc@) =~= string_views(before).push(seg@));
        }
        i = i + 1;
    }
    assert(all.take(segs@.len() as int) =~= all);
    let p = SanitizedPath { root: String::from_str(base_path), segments: acc };
    if p.is_within(base_path) {
        Some(p)
    } else {
        None
    }
}

/// The name of the file served in place of a directory.
pub const INDEX_FILE: &'static str = "index.html";

pub open spec fn index_file_name() -> Seq<char> {
    seq!['i', 'n', 'd', 'e', 'x', '.', 'h', 't', 'm', 'l']
}

impl SanitizedPath {
    /// The root directory this path is confined to.
    pub fn root(&self) -> (r: &str)
        ensures
            r@ == self.root_view(),
    {
        self.root.as_str()
    }

    /// The names below the root, outermost first.
    pub fn segments(&self) -> (r: &Vec<String>)
        ensures
            string_views(r@) == self.segments_view(),
    {
        &self.segments
    }

    /// Descends into the index file of the directory this path names.
    pub fn append_index(&mut self)
        requires
            old(self).wf(),
        ensures
            final(self).wf(),
            final(self).root_view() == old(self).root_view(),
            final(self).segments_view() == old(self).segments_view().push(index_file_name()),
    {
        proof {
            reveal_strlit("index.html");
        }
        let ghost before = self.segments@;
        let name = String::from_str(INDEX_FILE);
        assert(name@ =~= index_file_name());
        self.segments.push(name);
        assert(string_views(self.segments@) =~= string_views(before).push(index_file_name()));
        assert(is_normal_segment(index_file_name())) by {
            assert(index_file_name() != seq!['.', '.']) by {
                assert(index_file_name().len() != 2);
            }
            assert(index_file_name() != seq!['.']) by {
                assert(index_file_name().len() != 1);
            }
            assert forall|j: int| 0 <= j < index_file_name().len() implies index_file_name()[j]
                != '/' by {
                assert(0 <= j < 10);
            }
        }
        assert forall|i: int| 0 <= i < self.segments_view().len() implies is_normal_segment(
            #[trigger] self.segments_view()[i],
        ) by {
            if i < before.len() {
                assert(self.segments_view()[i] == old(self).segments_view()[i]);
                assert(is_normal_segment(old(self).segments_view()[i]));
            }
        }
    }

    /// The path as text: the root, then each name after a `/` separator
    /// (none is added where the text so far already ends with one).
    pub fn full_path(&self) -> (r: String)
        ensures
            r@ == joined_path(self.root_view(), self.segments_view()),
    {
        let mut out = self.root.clone();
        let mut k: usize = 0;
        assert(self.segments_view().take(0) =~= Seq::<Seq<char>>::empty());
        while k < self.segments.len()
            invariant
                k <= self.segments@.len(),
                out@ == joined_path(self.root@, self.segments_view().take(k as int)),
            decreases self.segments@.len() - k,
        {
            let seg = self.segments[k].as_str();
            assert(self.segments_view().take(k + 1).drop_last() =~= self.segments_view().take(
                k as int,
            ));
            assert(self.segments_view().take(k + 1).last() == seg@);
            let ghost prefix = out@;
            let n = out.as_str().unicode_len();
            if !(n > 0 && out.as_str().get_char(n - 1) == '/') {
                proof {
                    reveal_strlit("/");
                }
                out.append("/");
                assert(out@ =~= prefix.push('/'));
            }
            out.append(seg);
            assert(out@ =~= join_segment(prefix, seg@));
            k = k + 1;
        }
        assert(self.segments_view().take(self.segments@.len() as int) =~= self.segments_view());
        out
    }
}

/// How far below the root one segment moves the walk.
pub open spec fn depth_change(seg: Seq<char>) -> int {
    if is_parent_segment(seg) {
        -1
    } else if seg.len() == 0 || is_current_segment(seg) {
        0
    } else {
        1
    }
}

/// How far below the root the walk of `segs` ends, counting each name as one
/// step down and each `..` as one step up.
pub open spec fn depth(segs: Seq<Seq<char>>) -> int
    decreases segs.len(),
{
    if segs.len() == 0 {
        0
    } else {
        depth(segs.drop_last()) + depth_change(segs.last())
    }
}

/// Some leading run of `segs` holds more `..` segments than names.
pub open spec fn climbs_above_root(segs: Seq<Seq<char>>) -> bool {
    exists|k: int| 0 <= k <= segs.len() && #[trigger] depth(segs.take(k)) < 0
}

proof fn lemma_walk_depth(segs: Seq<Seq<char>>)
    ensures
        walk_segments(segs) is Some <==> !climbs_above_root(segs),
        walk_segments(segs) matches Some(a) ==> a.len() == depth(segs),
    decreases segs.len(),
{
    if segs.len() == 0 {
        assert forall|k: int| 0 <= k <= segs.len() implies #[trigger] depth(segs.take(k)) >= 0 by {
            assert(segs.take(k) =~= segs);
        }
    } else {
        let p = segs.drop_last();
        lemma_walk_depth(p);
        assert(segs.take(segs.len() as int) =~= segs);
        assert forall|k: int| 0 <= k < segs.len() implies #[trigger] segs.take(k) == p.take(k) by {
            assert(segs.take(k) =~= p.take(k));
        }
        match walk_segments(p) {
            None => {
                let k = choose|k: int| 0 <= k <= p.len() && #[trigger] depth(p.take(k)) < 0;
                assert(segs.take(k) == p.take(k));
                assert(depth(segs.take(k)) < 0);
            },
            Some(a) => {
                if walk_segments(segs) is None {
                    assert(depth(segs.take(segs.len() as int)) < 0);
                } else {
                    assert forall|k: int| 0 <= k <= segs.len() implies #[trigger] depth(
                        segs.take(k),
                    ) >= 0 by {
                        if k < segs.len() {
                            assert(segs.take(k) == p.take(k));
                            assert(!(depth(p.take(k)) < 0));
                        }
                    }
                }
            },
        }
    }
}

/// A request is refused exactly when it is absolute or when its `..`
/// segments, read from the left, at some point outnumber its names.
pub proof fn lemma_refused_exactly_when_escaping(requested: Seq<char>)
    ensures
        sanitized_segments(requested) is None <==> (is_absolute(requested) || climbs_above_root(
            split_segments(requested),
        )),
{
    lemma_walk_depth(split_segments(requested));
}

/// A request whose `..` segments climb above the root is refused.
pub proof fn lemma_climbing_above_root_is_refused(requested: Seq<char>)
    requires
        climbs_above_root(split_segments(requested)),
    ensures
        sanitized_segments(requested) is None,
{
    lemma_refused_exactly_when_escaping(requested);
}

/// An absolute request is refused, whatever follows its leading `/`.
pub proof fn lemma_absolute_is_refused(requested: Seq<char>)
    requires
        is_absolute(requested),
    ensures
        sanitized_segments(requested) is None,
{
}

proof fn lemma_leading_separator_gives_empty_segment(s: Seq<char>)
    requires
        is_absolute(s),
    ensures
        split_segments(s).len() >= 2,
        split_segments(s)[0].len() == 0,
    decreases s.len(),
{
    if s.len() == 1 {
        assert(s.drop_last() =~= Seq::<char>::empty());
    } else {
        lemma_leading_separator_gives_empty_segment(s.drop_last());
    }
}

proof fn lemma_walk_keeps_names(segs: Seq<Seq<char>>)
    requires
        forall|i: int| 0 <= i < segs.len() ==> is_normal_segment(#[trigger] segs[i]),
    ensures
        walk_segments(segs) == Some(segs),
    decreases segs.len(),
{
    if segs.len() > 0 {
        let p = segs.drop_last();
        assert forall|i: int| 0 <= i < p.len() implies is_normal_segment(#[trigger] p[i]) by {
            assert(p[i] == segs[i]);
        }
        lemma_walk_keeps_names(p);
        assert(is_normal_segment(segs[segs.len() - 1]));
        assert(p.push(segs.last()) =~= segs);
    }
}

/// A request made of names alone designates the root followed by those names,
/// in order.
pub proof fn lemma_names_are_kept(requested: Seq<char>)
    requires
        forall|i: int|
            0 <= i < split_segments(requested).len() ==> is_normal_segment(
                #[trigger] split_segments(requested)[i],
            ),
    ensures
        sanitized_segments(requested) == Some(split_segments(requested)),
{
    if is_absolute(requested) {
        lemma_leading_separator_gives_empty_segment(requested);
        assert(is_normal_segment(split_segments(requested)[0]));
    }
    lemma_walk_keeps_names(split_segments(requested));
}

/// Sanitizing depends on the root and the request alone: two results for the
/// same inputs agree.
pub proof fn lemma_sanitize_is_deterministic(
    base: Seq<char>,
    requested: Seq<char>,
    first: Option<SanitizedPath>,
    second: Option<SanitizedPath>,
)
    requires
        sanitizes_to(base, requested, first),
        sanitizes_to(base, requested, second),
    ensures
        first is None <==> second is None,
        first matches Some(a) ==> second matches Some(b) && a.root_view() == b.root_view()
            && a.segments_view() == b.segments_view(),
{
}

} // verus!
