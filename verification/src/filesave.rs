//! The file-save source's policy: turn raw filesystem notifications into
//! `FileSaved` events, keeping only modifications of files whose extension is
//! in a configured allow-list. No deduplication: N modifications of one path
//! give N events.

use vstd::prelude::*;

use crate::EventModel;
use crate::WorkEvent;

verus! {

/// The kind of a raw filesystem notification, as the watch collaborator
/// reports it.
#[derive(Debug, Clone, Copy, PartialEq, Eq, Structural)]
pub enum NotifyKind {
    Created,
    Modified,
    Removed,
    Renamed,
    Other,
}

/// The index of the last `/` of `p`, or -1 when `p` has none.
pub open spec fn last_slash(p: Seq<char>) -> int
    decreases p.len(),
{
    if p.len() == 0 {
        -1
    } else if p.last() == '/' {
        p.len() - 1
    } else {
        last_slash(p.drop_last())
    }
}

/// The index of the last `.` of `p`, or -1 when `p` has none.
pub open spec fn last_dot(p: Seq<char>) -> int
    decreases p.len(),
{
    if p.len() == 0 {
        -1
    } else if p.last() == '.' {
        p.len() - 1
    } else {
        last_dot(p.drop_last())
    }
}

/// The file name of a path: everything after the last `/` (the whole path
/// when it has no `/`).
pub open spec fn file_name_of(p: Seq<char>) -> Seq<char> {
    p.skip(last_slash(p) + 1)
}

/// The extension of a path: the part of its file name after the last `.`,
/// provided that dot is neither the file name's first character (a hidden
/// file such as `.bashrc` has no extension) nor absent, and that the file
/// name is not the parent-directory component `..`.
pub open spec fn extension_of(p: Seq<char>) -> Option<Seq<char>> {
    let f = file_name_of(p);
    if f =~= seq!['.', '.'] {
        None
    } else if last_dot(f) <= 0 {
        None
    } else {
        Some(f.skip(last_dot(f) + 1))
    }
}

/// Whether one path of a modify notification produces an event: its extension
/// exists and is in the allow-list (compared exactly, no case folding).
pub open spec fn path_selected(p: Seq<char>, allowed: Seq<Seq<char>>) -> bool {
    match extension_of(p) {
        Some(e) => allowed.contains(e),
        None => false,
    }
}

/// The events one notification produces: nothing unless its kind is
/// `Modified`; otherwise one `FileSaved` per selected path, in the order the
/// notification lists the paths.
pub open spec fn spec_events_for(
    kind: NotifyKind,
    paths: Seq<Seq<char>>,
    allowed: Seq<Seq<char>>,
) -> Seq<EventModel>
    decreases paths.len(),
{
    if kind != NotifyKind::Modified || paths.len() == 0 {
        Seq::empty()
    } else {
        spec_events_for(kind, paths.drop_last(), allowed) + (if path_selected(
            paths.last(),
            allowed,
        ) {
            seq![EventModel::FileSaved { path: paths.last() }]
        } else {
            Seq::empty()
        })
    }
}

/// The file-save filter: the configured allow-list of file extensions.
pub struct SaveFilter {
    allowed: Vec<String>,
}

impl SaveFilter {
    /// The abstract allow-list.
    pub closed spec fn allowed_exts(self) -> Seq<Seq<char>> {
        self.allowed.deep_view()
    }

    /// A filter for the given extension allow-list.
    pub fn new(allowed: Vec<String>) -> (f: SaveFilter)
        ensures
            f.allowed_exts() == allowed.deep_view(),
    {
        SaveFilter { allowed }
    }

    /// Whether `ext` is in the allow-list.
    fn contains_ext(&self, ext: &str) -> (r: bool)
        ensures
            r == self.allowed_exts().contains(ext@),
    {
        let mut i: usize = 0;
        while i < self.allowed.len()
            invariant
                i <= self.allowed.len(),
                forall|j: int| 0 <= j < i ==> self.allowed_exts()[j] != ext@,
            decreases self.allowed.len() - i,
        {
            assert(self.allowed_exts()[i as int] == self.allowed@[i as int]@);
            if str_eq(self.allowed[i].as_str(), ext) {
                assert(self.allowed_exts().contains(ext@));
                return true;
            }
            i = i + 1;
        }
        assert(forall|j: int| 0 <= j < self.allowed_exts().len()
            ==> self.allowed_exts()[j] != ext@);
        false
    }

    /// The events for one raw notification: one `FileSaved` for each path of
    /// a modify notification whose extension is in the allow-list; nothing
    /// for any other kind, and nothing for paths without a listed extension.
    pub fn events_for(&self, kind: NotifyKind, paths: &Vec<String>) -> (evs: Vec<WorkEvent>)
        ensures
            evs.deep_view() == spec_events_for(kind, paths.deep_view(), self.allowed_exts()),
    {
        let mut evs: Vec<WorkEvent> = Vec::new();
        if !matches!(kind, NotifyKind::Modified) {
            assert(evs.deep_view() =~= spec_events_for(
                kind,
                paths.deep_view(),
                self.allowed_exts(),
            ));
            return evs;
        }
        let mut i: usize = 0;
        while i < paths.len()
            invariant
                kind == NotifyKind::Modified,
                i <= paths.len(),
                evs.deep_view() =~= spec_events_for(
                    kind,
                    paths.deep_view().take(i as int),
                    self.allowed_exts(),
                ),
            decreases paths.len() - i,
        {
            let p = &paths[i];
            let selected = match extension(p.as_str()) {
                Some(ext) => self.contains_ext(ext),
                None => false,
            };
            proof {
                assert(paths.deep_view().take(i + 1).drop_last() =~= paths.deep_view().take(
                    i as int,
                ));
                assert(paths.deep_view().take(i + 1).last() == p@);
            }
            if selected {
                evs.push(WorkEvent::FileSaved { path: p.clone() });
            }
            i = i + 1;
        }
        proof {
            assert(paths.deep_view().take(paths@.len() as int) =~= paths.deep_view());
        }
        evs
    }
}

/// Character-by-character string equality; `r` is true exactly when the two
/// views agree.
fn str_eq(a: &str, b: &str) -> (r: bool)
    ensures
        r == (a@ == b@),
{
    let an = a.unicode_len();
    let bn = b.unicode_len();
    if an != bn {
        assert(a@ != b@);
        return false;
    }
    let mut i: usize = 0;
    while i < an
        invariant
            i <= an,
            an == a@.len(),
            an == b@.len(),
            forall|j: int| 0 <= j < i ==> a@[j] == b@[j],
        decreases an - i,
    {
        if a.get_char(i) != b.get_char(i) {
            assert(a@ != b@);
            return false;
        }
        i = i + 1;
    }
    assert(a@ =~= b@);
    true
}

/// The exec counterpart of `extension_of`: the extension of `p`, as a slice
/// of `p`, when `extension_of(p@)` gives one.
pub fn extension(p: &str) -> (r: Option<&str>)
    ensures
        match r {
            Some(e) => extension_of(p@) == Some(e@),
            None => extension_of(p@) is None,
        },
{
    let n = p.unicode_len();
    let fstart = last_index_of(p, '/');
    proof {
        lemma_last_index_spec(p@, '/');
        assert(file_name_of(p@) == p@.skip(fstart as int));
    }
    let fname = p.substring_char(fstart, n);
    assert(fname@ == file_name_of(p@));
    let flen = n - fstart;
    if flen == 2 && fname.get_char(0) == '.' && fname.get_char(1) == '.' {
        assert(fname@ =~= seq!['.', '.']);
        return None;
    }
    assert(!(file_name_of(p@) =~= seq!['.', '.'])) by {
        if file_name_of(p@) =~= seq!['.', '.'] {
            assert(fname@[0] == '.' && fname@[1] == '.');
            assert(fname@.len() == 2);
        }
    }
    let dot = last_index_of(fname, '.');
    proof {
        lemma_last_index_spec(fname@, '.');
    }
    if dot <= 1 {
        assert(last_dot(file_name_of(p@)) <= 0);
        None
    } else {
        let e = fname.substring_char(dot, flen);
        Some(e)
    }
}

/// The position just after the last occurrence of `c` in `s`: one more than
/// its index, and 0 when `s` has no `c` at all.
fn last_index_of(s: &str, c: char) -> (r: usize)
    ensures
        r == last_index_spec(s@, c) + 1,
        r <= s@.len(),
{
    let n = s.unicode_len();
    let mut i: usize = n;
    while i > 0
        invariant
            i <= n,
            n == s@.len(),
            forall|j: int| i <= j < n ==> s@[j] != c,
        decreases i,
    {
        if s.get_char(i - 1) == c {
            proof {
                lemma_last_index_is_last(s@, c, i - 1);
            }
            return i;
        }
        i = i - 1;
    }
    proof {
        lemma_last_index_none(s@, c);
    }
    0
}

/// The index of the last occurrence of `c` in `s`, or -1 when there is none.
pub open spec fn last_index_spec(s: Seq<char>, c: char) -> int
    decreases s.len(),
{
    if s.len() == 0 {
        -1
    } else if s.last() == c {
        s.len() - 1
    } else {
        last_index_spec(s.drop_last(), c)
    }
}

proof fn lemma_last_index_is_last(s: Seq<char>, c: char, k: int)
    requires
        0 <= k < s.len(),
        s[k] == c,
        forall|j: int| k < j < s.len() ==> s[j] != c,
    ensures
        last_index_spec(s, c) == k,
    decreases s.len(),
{
    if s.len() - 1 == k {
    } else {
        assert(s.last() != c);
        lemma_last_index_is_last(s.drop_last(), c, k);
    }
}

proof fn lemma_last_index_none(s: Seq<char>, c: char)
    requires
        forall|j: int| 0 <= j < s.len() ==> s[j] != c,
    ensures
        last_index_spec(s, c) == -1,
    decreases s.len(),
{
    if s.len() > 0 {
        lemma_last_index_none(s.drop_last(), c);
    }
}

/// `last_slash` and `last_dot` are `last_index_spec` at their characters.
proof fn lemma_last_index_spec(s: Seq<char>, c: char)
    ensures
        c == '/' ==> last_slash(s) == last_index_spec(s, c),
        c == '.' ==> last_dot(s) == last_index_spec(s, c),
    decreases s.len(),
{
    if s.len() > 0 {
        lemma_last_index_spec(s.drop_last(), c);
    }
}

/// Filter law: a modify notification produces a `FileSaved` for path `p` at
/// some position if and only if `p` is one of its paths and `p`'s extension
/// is in the allow-list — and a notification of any other kind produces
/// nothing at all.
pub proof fn lemma_filter(
    kind: NotifyKind,
    paths: Seq<Seq<char>>,
    allowed: Seq<Seq<char>>,
    p: Seq<char>,
)
    ensures
        spec_events_for(kind, paths, allowed).contains(EventModel::FileSaved { path: p })
            <==> (kind == NotifyKind::Modified && paths.contains(p) && path_selected(p, allowed)),
    decreases paths.len(),
{
    if kind != NotifyKind::Modified || paths.len() == 0 {
    } else {
        lemma_filter(kind, paths.drop_last(), allowed, p);
        let pre = spec_events_for(kind, paths.drop_last(), allowed);
        let all = spec_events_for(kind, paths, allowed);
        if path_selected(paths.last(), allowed) {
            assert(all == pre + seq![EventModel::FileSaved { path: paths.last() }]);
            if all.contains(EventModel::FileSaved { path: p }) {
                let k = choose|k: int| 0 <= k < all.len() && all[k] == (EventModel::FileSaved {
                    path: p,
                });
                if k < pre.len() {
                    assert(pre.contains(EventModel::FileSaved { path: p }));
                } else {
                    assert(p == paths.last());
                    assert(paths.contains(p));
                }
            }
            if kind == NotifyKind::Modified && paths.contains(p) && path_selected(p, allowed) {
                let k = choose|k: int| 0 <= k < paths.len() && paths[k] == p;
                if k < paths.len() - 1 {
                    assert(paths.drop_last().contains(p)) by {
                        assert(paths.drop_last()[k] == p);
                    }
                    assert(all[choose|j: int|
                        0 <= j < pre.len() && pre[j] == (EventModel::FileSaved { path: p })]
                        == (EventModel::FileSaved { path: p }));
                } else {
                    assert(all.last() == (EventModel::FileSaved { path: paths.last() }));
                }
            }
        } else {
            assert(all =~= pre);
            if paths.contains(p) && path_selected(p, allowed) {
                let k = choose|k: int| 0 <= k < paths.len() && paths[k] == p;
                if k == paths.len() - 1 {
                    assert(p == paths.last());
                    assert(!path_selected(paths.last(), allowed));
                    assert(false);
                } else {
                    assert(paths.drop_last()[k] == p);
                    assert(paths.drop_last().contains(p));
                }
            }
            if pre.contains(EventModel::FileSaved { path: p }) {
                assert(paths.drop_last().contains(p));
                let k = choose|k: int| 0 <= k < paths.drop_last().len() && paths.drop_last()[k]
                    == p;
                assert(paths[k] == p);
                assert(paths.contains(p));
            }
        }
    }
}

} // verus!
