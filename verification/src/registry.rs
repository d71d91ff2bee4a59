//! Per-link bookkeeping: the control state a user sets on a download and
//! the progress record the transfer code keeps up to date.

use vstd::prelude::*;
use crate::text::{chars_eq, chars_of};
use vstd::string::StringExecFns;

verus! {

/// A table keyed by link text; each link occurs at most once. It is a
/// vector of distinct keys rather than a `HashMap`: vstd specifies
/// `HashMap` only for keys whose key model it provides (integers, `bool`
/// and boxes of them), and text is not among them.
pub struct LinkTable<T> {
    entries: Vec<(Vec<char>, T)>,
}

impl<T> LinkTable<T> {
    /// No link occurs twice.
    pub closed spec fn wf(&self) -> bool {
        forall|i: int, j: int|
            0 <= i < j < self.entries@.len() ==> #[trigger] self.entries@[i].0@
                != #[trigger] self.entries@[j].0@
    }

    pub closed spec fn has(&self, k: Seq<char>) -> bool {
        exists|i: int| 0 <= i < self.entries@.len() && #[trigger] self.entries@[i].0@ == k
    }

    pub closed spec fn view(&self) -> Map<Seq<char>, T> {
        Map::new(
            |k: Seq<char>| self.has(k),
            |k: Seq<char>|
                self.entries@[choose|i: int|
                    0 <= i < self.entries@.len() && #[trigger] self.entries@[i].0@ == k].1,
        )
    }

    proof fn lemma_at(&self, i: int)
        requires
            self.wf(),
            0 <= i < self.entries@.len(),
        ensures
            self@.contains_key(self.entries@[i].0@),
            self@[self.entries@[i].0@] == self.entries@[i].1,
    {
        let k = self.entries@[i].0@;
        assert(self.has(k));
        let j = choose|j: int| 0 <= j < self.entries@.len() && #[trigger] self.entries@[j].0@ == k;
        if j != i {
            if i < j {
                assert(self.entries@[i].0@ != self.entries@[j].0@);
            } else {
                assert(self.entries@[j].0@ != self.entries@[i].0@);
            }
        }
    }

    /// An empty table.
    pub fn new() -> (r: Self)
        ensures
            r.wf(),
            r@ == Map::<Seq<char>, T>::empty(),
    {
        let r = LinkTable { entries: Vec::new() };
        assert(r@ =~= Map::<Seq<char>, T>::empty());
        r
    }

    fn find(&self, key: &[char]) -> (r: Option<usize>)
        requires
            self.wf(),
        ensures
            match r {
                Some(i) => i < self.entries@.len() && self.entries@[i as int].0@ == key@,
                None => !self@.contains_key(key@),
            },
    {
        let n = self.entries.len();
        for i in 0..n
            invariant
                n == self.entries@.len(),
                forall|j: int| 0 <= j < i ==> self.entries@[j].0@ != key@,
        {
            if chars_eq(self.entries[i].0.as_slice(), key) {
                return Some(i);
            }
        }
        None
    }

    /// The value stored for `link`, if any.
    pub fn get(&self, link: &str) -> (r: Option<&T>)
        requires
            self.wf(),
        ensures
            r == (if self@.contains_key(link@) { Some(&self@[link@]) } else { None }),
    {
        let key = chars_of(link);
        match self.find(key.as_slice()) {
            Some(i) => {
                proof { self.lemma_at(i as int); }
                Some(&self.entries[i].1)
            },
            None => None,
        }
    }

    /// Stores `value` for `link`, replacing any earlier value.
    pub fn insert(&mut self, link: &str, value: T)
        requires
            old(self).wf(),
        ensures
            final(self).wf(),
            final(self)@ == old(self)@.insert(link@, value),
    {
        let key = chars_of(link);
        let ghost old_entries = self.entries@;
        match self.find(key.as_slice()) {
            Some(i) => {
                self.entries.set(i, (key, value));
                proof {
                    assert forall|a: int, b: int| 0 <= a < b < self.entries@.len() implies
                        #[trigger] self.entries@[a].0@ != #[trigger] self.entries@[b].0@ by {
                        assert(old_entries[a].0@ != old_entries[b].0@);
                    }
                    assert forall|k: Seq<char>| #![auto] self@.contains_key(k) <==> old(self)@.insert(link@, value).contains_key(k) by {
                        if self.has(k) {
                            let j = choose|j: int| 0 <= j < self.entries@.len() && #[trigger] self.entries@[j].0@ == k;
                            if j != i { assert(old_entries[j].0@ == k); assert(old(self).has(k)); }
                        }
                        if old(self).has(k) && k != link@ {
                            let j = choose|j: int| 0 <= j < old_entries.len() && #[trigger] old_entries[j].0@ == k;
                            assert(self.entries@[j].0@ == k);
                        }
                        if k == link@ { assert(self.entries@[i as int].0@ == k); }
                    }
                    assert forall|k: Seq<char>| #![auto] self@.contains_key(k) implies self@[k] == old(self)@.insert(link@, value)[k] by {
                        let j = choose|j: int| 0 <= j < self.entries@.len() && #[trigger] self.entries@[j].0@ == k;
                        self.lemma_at(j);
                        if j != i {
                            old(self).lemma_at(j);
                        }
                    }
                    assert(self@ =~= old(self)@.insert(link@, value));
                }
            },
            None => {
                self.entries.push((key, value));
                proof {
                    let n = old_entries.len() as int;
                    assert forall|a: int, b: int| 0 <= a < b < self.entries@.len() implies
                        #[trigger] self.entries@[a].0@ != #[trigger] self.entries@[b].0@ by {
                        if b == n {
                            assert(old(self).has(old_entries[a].0@));
                        } else {
                            assert(old_entries[a].0@ != old_entries[b].0@);
                        }
                    }
                    assert forall|k: Seq<char>| #![auto] self@.contains_key(k) <==> old(self)@.insert(link@, value).contains_key(k) by {
                        if self.has(k) {
                            let j = choose|j: int| 0 <= j < self.entries@.len() && #[trigger] self.entries@[j].0@ == k;
                            if j != n { assert(old_entries[j].0@ == k); assert(old(self).has(k)); }
                        }
                        if old(self).has(k) {
                            let j = choose|j: int| 0 <= j < old_entries.len() && #[trigger] old_entries[j].0@ == k;
                            assert(self.entries@[j].0@ == k);
                        }
                        if k == link@ { assert(self.entries@[n].0@ == k); }
                    }
                    assert forall|k: Seq<char>| #![auto] self@.contains_key(k) implies self@[k] == old(self)@.insert(link@, value)[k] by {
                        let j = choose|j: int| 0 <= j < self.entries@.len() && #[trigger] self.entries@[j].0@ == k;
                        self.lemma_at(j);
                        if j != n {
                            old(self).lemma_at(j);
                        }
                    }
                    assert(self@ =~= old(self)@.insert(link@, value));
                }
            },
        }
    }

    /// Takes the value stored for `link` out of the table.
    pub fn remove(&mut self, link: &str) -> (r: Option<T>)
        requires
            old(self).wf(),
        ensures
            final(self).wf(),
            final(self)@ == old(self)@.remove(link@),
            r == (if old(self)@.contains_key(link@) { Some(old(self)@[link@]) } else { None }),
    {
        let key = chars_of(link);
        let ghost old_entries = self.entries@;
        match self.find(key.as_slice()) {
            Some(i) => {
                proof { old(self).lemma_at(i as int); }
                let (_k, v) = self.entries.remove(i);
                proof {
                    assert forall|a: int, b: int| 0 <= a < b < self.entries@.len() implies
                        #[trigger] self.entries@[a].0@ != #[trigger] self.entries@[b].0@ by {
                        let a2 = if a < i { a } else { a + 1 };
                        let b2 = if b < i { b } else { b + 1 };
                        assert(self.entries@[a] == old_entries[a2]);
                        assert(self.entries@[b] == old_entries[b2]);
                        assert(old_entries[a2].0@ != old_entries[b2].0@);
                    }
                    assert forall|k: Seq<char>| #![auto] self@.contains_key(k) <==> old(self)@.remove(link@).contains_key(k) by {
                        if self.has(k) {
                            let j = choose|j: int| 0 <= j < self.entries@.len() && #[trigger] self.entries@[j].0@ == k;
                            let j2 = if j < i { j } else { j + 1 };
                            assert(self.entries@[j] == old_entries[j2]);
                            assert(old(self).has(k));
                            if k == link@ {
                                assert(old_entries[j2].0@ != old_entries[i as int].0@);
                            }
                        }
                        if old(self).has(k) && k != link@ {
                            let j = choose|j: int| 0 <= j < old_entries.len() && #[trigger] old_entries[j].0@ == k;
                            assert(j != i);
                            let j2 = if j < i { j } else { j - 1 };
                            assert(self.entries@[j2] == old_entries[j]);
                            assert(self.has(k));
                        }
                    }
                    assert forall|k: Seq<char>| #![auto] self@.contains_key(k) implies self@[k] == old(self)@.remove(link@)[k] by {
                        let j = choose|j: int| 0 <= j < self.entries@.len() && #[trigger] self.entries@[j].0@ == k;
                        self.lemma_at(j);
                        let j2 = if j < i { j } else { j + 1 };
                        assert(self.entries@[j] == old_entries[j2]);
                        old(self).lemma_at(j2);
                    }
                    assert(self@ =~= old(self)@.remove(link@));
                }
                Some(v)
            },
            None => {
                assert(self@ =~= old(self)@.remove(link@));
                None
            },
        }
    }
}

/// What the user has asked of a download.
#[derive(PartialEq, Eq, Structural, Clone, Copy, Debug)]
pub enum CtrlState {
    Running,
    Paused,
    Cancelled,
}

/// The control state of `link`: the one last set, or `Running` when none is.
pub open spec fn ctrl_of(ctrl: Map<Seq<char>, CtrlState>, link: Seq<char>) -> CtrlState {
    if ctrl.contains_key(link) {
        ctrl[link]
    } else {
        CtrlState::Running
    }
}

/// Reads the control state of `link`.
pub fn check_ctrl(ctrl: &LinkTable<CtrlState>, link: &str) -> (r: CtrlState)
    requires
        ctrl.wf(),
    ensures
        r == ctrl_of(ctrl@, link@),
{
    match ctrl.get(link) {
        Some(s) => *s,
        None => CtrlState::Running,
    }
}

/// What a transfer does at a pause-and-cancel checkpoint.
#[derive(PartialEq, Eq, Structural, Clone, Copy, Debug)]
pub enum CtrlGate {
    /// Go on transferring.
    Proceed,
    /// Wait a moment, then look again.
    Wait,
    /// Stop: the download was cancelled.
    Stop,
}

/// What each control state means at a checkpoint: running proceeds,
/// paused waits, cancelled stops.
pub open spec fn gate_for(state: CtrlState) -> CtrlGate {
    match state {
        CtrlState::Running => CtrlGate::Proceed,
        CtrlState::Paused => CtrlGate::Wait,
        CtrlState::Cancelled => CtrlGate::Stop,
    }
}

/// How far a download has come, as last reported: nothing yet, the
/// fraction `done / total` (shown as a percentage), or finished.
#[derive(PartialEq, Eq, Structural, Clone, Copy, Debug)]
pub enum ProgressMark {
    Zero,
    Ratio { done: u64, total: u64 },
    Full,
}

/// The progress record of one download.
pub struct ProgState {
    pub progress: ProgressMark,
    pub downloaded: u64,
    pub total: u64,
    pub error: Option<String>,
    pub paused: bool,
    /// The path the file is saved to, once known.
    pub sp: Option<String>,
    pub status: Option<String>,
}

/// What is reported of one download.
pub struct DownloadInfo {
    pub progress: ProgressMark,
    pub downloaded: u64,
    pub total: u64,
    pub error: Option<String>,
    pub paused: bool,
    pub status: Option<String>,
}

/// The plain value of an optional string.
pub open spec fn opt_view(o: Option<String>) -> Option<Seq<char>> {
    match o {
        Some(s) => Some(s@),
        None => None,
    }
}

/// The plain value of a progress record.
pub struct ProgView {
    pub progress: ProgressMark,
    pub downloaded: u64,
    pub total: u64,
    pub error: Option<Seq<char>>,
    pub paused: bool,
    pub sp: Option<Seq<char>>,
    pub status: Option<Seq<char>>,
}

pub open spec fn prog_view(s: ProgState) -> ProgView {
    ProgView {
        progress: s.progress,
        downloaded: s.downloaded,
        total: s.total,
        error: opt_view(s.error),
        paused: s.paused,
        sp: opt_view(s.sp),
        status: opt_view(s.status),
    }
}

/// The plain value of a report.
pub struct InfoView {
    pub progress: ProgressMark,
    pub downloaded: u64,
    pub total: u64,
    pub error: Option<Seq<char>>,
    pub paused: bool,
    pub status: Option<Seq<char>>,
}

pub open spec fn info_view(d: DownloadInfo) -> InfoView {
    InfoView {
        progress: d.progress,
        downloaded: d.downloaded,
        total: d.total,
        error: opt_view(d.error),
        paused: d.paused,
        status: opt_view(d.status),
    }
}

/// The status shown while the download link is being resolved.
pub open spec fn resolving_status() -> Seq<char> {
    "Resolving link (Cloudflare)..."@
}

/// The error recorded for a cancelled download.
pub open spec fn cancelled_message() -> Seq<char> {
    "Cancelled"@
}

/// The error of a cancelled download (see `cancelled_message`).
pub fn cancelled_error() -> (r: String)
    ensures
        r@ == cancelled_message(),
{
    String::from_str("Cancelled")
}

/// The record a download starts with.
pub open spec fn initial_prog() -> ProgView {
    ProgView {
        progress: ProgressMark::Zero,
        downloaded: 0,
        total: 0,
        error: None,
        paused: false,
        sp: None,
        status: Some(resolving_status()),
    }
}

/// What is reported of a link: its record, or all zeros when it has none.
pub open spec fn info_of(p: Map<Seq<char>, ProgView>, link: Seq<char>) -> InfoView {
    if p.contains_key(link) {
        let s = p[link];
        InfoView {
            progress: s.progress,
            downloaded: s.downloaded,
            total: s.total,
            error: s.error,
            paused: s.paused,
            status: s.status,
        }
    } else {
        InfoView {
            progress: ProgressMark::Zero,
            downloaded: 0,
            total: 0,
            error: None,
            paused: false,
            status: None,
        }
    }
}

/// `p` with the record of `link`, where there is one, replaced by `f` of it.
pub open spec fn update_at(
    p: Map<Seq<char>, ProgView>,
    link: Seq<char>,
    f: spec_fn(ProgView) -> ProgView,
) -> Map<Seq<char>, ProgView> {
    if p.contains_key(link) {
        p.insert(link, f(p[link]))
    } else {
        p
    }
}

/// The progress after `downloaded` bytes of `total` were counted.
pub open spec fn counted(s: ProgView, downloaded: u64, total: u64) -> ProgView {
    ProgView {
        downloaded: downloaded,
        progress: if total > 0 { ProgressMark::Ratio { done: downloaded, total: total } } else { s.progress },
        ..s
    }
}

/// Sets the paused flag.
pub open spec fn paused_as(b: bool) -> spec_fn(ProgView) -> ProgView {
    |s: ProgView| ProgView { paused: b, ..s }
}

/// Records an error.
pub open spec fn errored(e: Seq<char>) -> spec_fn(ProgView) -> ProgView {
    |s: ProgView| ProgView { error: Some(e), ..s }
}

/// Sets the status line.
pub open spec fn status_as(st: Option<Seq<char>>) -> spec_fn(ProgView) -> ProgView {
    |s: ProgView| ProgView { status: st, ..s }
}

/// Records the save path.
pub open spec fn saved_to(sp: Seq<char>) -> spec_fn(ProgView) -> ProgView {
    |s: ProgView| ProgView { sp: Some(sp), ..s }
}

/// Records the file size.
pub open spec fn sized(total: u64) -> spec_fn(ProgView) -> ProgView {
    |s: ProgView| ProgView { total: total, ..s }
}

/// Marks the download complete.
pub open spec fn completed() -> spec_fn(ProgView) -> ProgView {
    |s: ProgView| ProgView { progress: ProgressMark::Full, ..s }
}

/// Sets the byte count to `downloaded` of `total`.
pub open spec fn counted_to(downloaded: u64, total: u64) -> spec_fn(ProgView) -> ProgView {
    |s: ProgView| counted(s, downloaded, total)
}

/// Adds `delta` to the byte count, against the recorded size.
pub open spec fn added(delta: u64) -> spec_fn(ProgView) -> ProgView {
    |s: ProgView| counted(s, (s.downloaded + delta) as u64, s.total)
}

/// The progress records and control states of all downloads.
pub struct Downloads {
    progress: LinkTable<ProgState>,
    ctrl: LinkTable<CtrlState>,
}

impl Downloads {
    pub closed spec fn wf(&self) -> bool {
        self.progress.wf() && self.ctrl.wf()
    }

    /// The progress records, by link.
    pub closed spec fn progress_map(&self) -> Map<Seq<char>, ProgView> {
        self.progress@.map_values(|s: ProgState| prog_view(s))
    }

    /// The control states, by link.
    pub closed spec fn ctrl_map(&self) -> Map<Seq<char>, CtrlState> {
        self.ctrl@
    }

    /// No downloads yet.
    pub fn new() -> (r: Self)
        ensures
            r.wf(),
            r.progress_map() == Map::<Seq<char>, ProgView>::empty(),
            r.ctrl_map() == Map::<Seq<char>, CtrlState>::empty(),
    {
        let r = Downloads { progress: LinkTable::new(), ctrl: LinkTable::new() };
        assert(r.progress_map() =~= Map::<Seq<char>, ProgView>::empty());
        r
    }

    proof fn lemma_put(&self, old_p: Map<Seq<char>, ProgState>, link: Seq<char>, st: ProgState)
        requires
            self.progress@ == old_p.insert(link, st),
        ensures
            self.progress_map() == old_p.map_values(|s: ProgState| prog_view(s)).insert(link, prog_view(st)),
    {
        assert(self.progress_map() =~= old_p.map_values(|s: ProgState| prog_view(s)).insert(link, prog_view(st)));
    }

    /// Takes the record of `link` out, to be put back changed.
    fn take(&mut self, link: &str) -> (r: Option<ProgState>)
        requires
            old(self).wf(),
        ensures
            final(self).wf(),
            final(self).ctrl_map() == old(self).ctrl_map(),
            final(self).progress@ == old(self).progress@.remove(link@),
            r == (if old(self).progress@.contains_key(link@) { Some(old(self).progress@[link@]) } else { None }),
    {
        self.progress.remove(link)
    }

    fn put(&mut self, link: &str, st: ProgState)
        requires
            old(self).wf(),
        ensures
            final(self).wf(),
            final(self).ctrl_map() == old(self).ctrl_map(),
            final(self).progress@ == old(self).progress@.insert(link@, st),
    {
        self.progress.insert(link, st);
    }

    /// Registers a download that is about to be resolved: a fresh record and
    /// the control state `Running`.
    pub fn start(&mut self, link: &str)
        requires
            old(self).wf(),
        ensures
            final(self).wf(),
            final(self).progress_map() == old(self).progress_map().insert(link@, initial_prog()),
            final(self).ctrl_map() == old(self).ctrl_map().insert(link@, CtrlState::Running),
    {
        let st = ProgState {
            progress: ProgressMark::Zero,
            downloaded: 0,
            total: 0,
            error: None,
            paused: false,
            sp: None,
            status: Some(String::from_str("Resolving link (Cloudflare)...")),
        };
        let ghost old_p = self.progress@;
        self.progress.insert(link, st);
        proof { self.lemma_put(old_p, link@, st); }
        self.ctrl.insert(link, CtrlState::Running);
    }

    /// The control state of `link`.
    pub fn ctrl_state(&self, link: &str) -> (r: CtrlState)
        requires
            self.wf(),
        ensures
            r == ctrl_of(self.ctrl_map(), link@),
    {
        check_ctrl(&self.ctrl, link)
    }

    /// Asks the download of `link` to pause.
    pub fn pause(&mut self, link: &str)
        requires
            old(self).wf(),
        ensures
            final(self).wf(),
            final(self).progress_map() == old(self).progress_map(),
            final(self).ctrl_map() == old(self).ctrl_map().insert(link@, CtrlState::Paused),
    {
        self.ctrl.insert(link, CtrlState::Paused);
    }

    /// Lets the download of `link` run again and clears its paused flag.
    pub fn resume(&mut self, link: &str)
        requires
            old(self).wf(),
        ensures
            final(self).wf(),
            final(self).progress_map() == update_at(old(self).progress_map(), link@, paused_as(false)),
            final(self).ctrl_map() == old(self).ctrl_map().insert(link@, CtrlState::Running),
    {
        self.ctrl.insert(link, CtrlState::Running);
        let ghost old_p = self.progress@;
        match self.take(link) {
            Some(mut st) => {
                st.paused = false;
                self.put(link, st);
                proof {
                    self.lemma_put(old_p.remove(link@), link@, st);
                    assert(old_p.remove(link@).insert(link@, st) =~= old_p.insert(link@, st));
                    assert(self.progress_map() =~= update_at(old(self).progress_map(), link@, paused_as(false)));
                }
            },
            None => {
                assert(old_p.remove(link@) =~= old_p);
            },
        }
    }

    /// Cancels the download of `link`, records the error "Cancelled" and
    /// returns the path of its partial file, when one is known.
    pub fn cancel(&mut self, link: &str) -> (r: Option<String>)
        requires
            old(self).wf(),
        ensures
            final(self).wf(),
            final(self).progress_map() == update_at(old(self).progress_map(), link@, errored(cancelled_message())),
            final(self).ctrl_map() == old(self).ctrl_map().insert(link@, CtrlState::Cancelled),
            opt_view(r) == (if old(self).progress_map().contains_key(link@) { old(self).progress_map()[link@].sp } else { None }),
    {
        self.ctrl.insert(link, CtrlState::Cancelled);
        let ghost old_p = self.progress@;
        match self.take(link) {
            Some(mut st) => {
                st.error = Some(String::from_str("Cancelled"));
                let path = match &st.sp {
                    Some(p) => Some(p.clone()),
                    None => None,
                };
                self.put(link, st);
                proof {
                    self.lemma_put(old_p.remove(link@), link@, st);
                    assert(old_p.remove(link@).insert(link@, st) =~= old_p.insert(link@, st));
                    assert(self.progress_map() =~= update_at(old(self).progress_map(), link@, errored(cancelled_message())));
                }
                path
            },
            None => {
                assert(old_p.remove(link@) =~= old_p);
                None
            },
        }
    }

    /// Puts back the record of `link`, taken out of `old_p` and changed by `f`.
    fn put_back(
        &mut self,
        link: &str,
        st: ProgState,
        Ghost(old_p): Ghost<Map<Seq<char>, ProgState>>,
        Ghost(f): Ghost<spec_fn(ProgView) -> ProgView>,
    )
        requires
            old(self).wf(),
            old_p.contains_key(link@),
            old(self).progress@ == old_p.remove(link@),
            prog_view(st) == f(prog_view(old_p[link@])),
        ensures
            final(self).wf(),
            final(self).ctrl_map() == old(self).ctrl_map(),
            final(self).progress_map() == update_at(old_p.map_values(|s: ProgState| prog_view(s)), link@, f),
    {
        self.put(link, st);
        proof {
            assert(old_p.remove(link@).insert(link@, st) =~= old_p.insert(link@, st));
            self.lemma_put(old_p, link@, st);
            assert(self.progress_map() =~= update_at(old_p.map_values(|s: ProgState| prog_view(s)), link@, f));
        }
    }

    /// Sets the status line of `link`'s record, when there is one.
    pub fn set_status(&mut self, link: &str, status: Option<String>)
        requires
            old(self).wf(),
        ensures
            final(self).wf(),
            final(self).progress_map() == update_at(old(self).progress_map(), link@, status_as(opt_view(status))),
            final(self).ctrl_map() == old(self).ctrl_map(),
    {
        let ghost old_p = self.progress@;
        match self.take(link) {
            Some(mut st) => {
                st.status = status;
                self.put_back(link, st, Ghost(old_p), Ghost(status_as(opt_view(status))));
            },
            None => { assert(old_p.remove(link@) =~= old_p); },
        }
    }

    /// Records the path `link` is saved to, when it has a record.
    pub fn set_save_path(&mut self, link: &str, sp: String)
        requires
            old(self).wf(),
        ensures
            final(self).wf(),
            final(self).progress_map() == update_at(old(self).progress_map(), link@, saved_to(sp@)),
            final(self).ctrl_map() == old(self).ctrl_map(),
    {
        let ghost old_p = self.progress@;
        match self.take(link) {
            Some(mut st) => {
                let ghost v = sp@;
                st.sp = Some(sp);
                self.put_back(link, st, Ghost(old_p), Ghost(saved_to(v)));
            },
            None => { assert(old_p.remove(link@) =~= old_p); },
        }
    }

    /// Marks `link` as paused in its record, when it has one.
    pub fn mark_paused(&mut self, link: &str)
        requires
            old(self).wf(),
        ensures
            final(self).wf(),
            final(self).progress_map() == update_at(old(self).progress_map(), link@, paused_as(true)),
            final(self).ctrl_map() == old(self).ctrl_map(),
    {
        let ghost old_p = self.progress@;
        match self.take(link) {
            Some(mut st) => {
                st.paused = true;
                self.put_back(link, st, Ghost(old_p), Ghost(paused_as(true)));
            },
            None => { assert(old_p.remove(link@) =~= old_p); },
        }
    }

    /// One look at a pause-and-cancel checkpoint of `link`: what its
    /// control state means there (see `gate_for`); a paused download is
    /// also marked as paused in its record.
    pub fn checkpoint(&mut self, link: &str) -> (r: CtrlGate)
        requires
            old(self).wf(),
        ensures
            final(self).wf(),
            r == gate_for(ctrl_of(old(self).ctrl_map(), link@)),
            final(self).ctrl_map() == old(self).ctrl_map(),
            final(self).progress_map() == (if r == CtrlGate::Wait {
                update_at(old(self).progress_map(), link@, paused_as(true))
            } else {
                old(self).progress_map()
            }),
    {
        match check_ctrl(&self.ctrl, link) {
            CtrlState::Running => CtrlGate::Proceed,
            CtrlState::Paused => {
                self.mark_paused(link);
                CtrlGate::Wait
            },
            CtrlState::Cancelled => CtrlGate::Stop,
        }
    }

    /// Records the file size `total` of `link`, when it has a record.
    pub fn set_total(&mut self, link: &str, total: u64)
        requires
            old(self).wf(),
        ensures
            final(self).wf(),
            final(self).progress_map() == update_at(old(self).progress_map(), link@, sized(total)),
            final(self).ctrl_map() == old(self).ctrl_map(),
    {
        let ghost old_p = self.progress@;
        match self.take(link) {
            Some(mut st) => {
                st.total = total;
                self.put_back(link, st, Ghost(old_p), Ghost(sized(total)));
            },
            None => { assert(old_p.remove(link@) =~= old_p); },
        }
    }

    /// Records the error `e` for `link`, when it has a record.
    pub fn set_error(&mut self, link: &str, e: String)
        requires
            old(self).wf(),
        ensures
            final(self).wf(),
            final(self).progress_map() == update_at(old(self).progress_map(), link@, errored(e@)),
            final(self).ctrl_map() == old(self).ctrl_map(),
    {
        let ghost old_p = self.progress@;
        match self.take(link) {
            Some(mut st) => {
                let ghost v = e@;
                st.error = Some(e);
                self.put_back(link, st, Ghost(old_p), Ghost(errored(v)));
            },
            None => { assert(old_p.remove(link@) =~= old_p); },
        }
    }

    /// Marks the download of `link` as complete, when it has a record.
    pub fn mark_complete(&mut self, link: &str)
        requires
            old(self).wf(),
        ensures
            final(self).wf(),
            final(self).progress_map() == update_at(old(self).progress_map(), link@, completed()),
            final(self).ctrl_map() == old(self).ctrl_map(),
    {
        let ghost old_p = self.progress@;
        match self.take(link) {
            Some(mut st) => {
                st.progress = ProgressMark::Full;
                self.put_back(link, st, Ghost(old_p), Ghost(completed()));
            },
            None => { assert(old_p.remove(link@) =~= old_p); },
        }
    }

    /// Sets the byte count of `link` to `downloaded` of `total` (a single
    /// stream reports its own count).
    pub fn record_downloaded(&mut self, link: &str, downloaded: u64, total: u64)
        requires
            old(self).wf(),
        ensures
            final(self).wf(),
            final(self).progress_map() == update_at(old(self).progress_map(), link@, counted_to(downloaded, total)),
            final(self).ctrl_map() == old(self).ctrl_map(),
    {
        let ghost old_p = self.progress@;
        match self.take(link) {
            Some(mut st) => {
                st.downloaded = downloaded;
                if total > 0 {
                    st.progress = ProgressMark::Ratio { done: downloaded, total };
                }
                self.put_back(link, st, Ghost(old_p), Ghost(counted_to(downloaded, total)));
            },
            None => { assert(old_p.remove(link@) =~= old_p); },
        }
    }

    /// Adds `delta` bytes to the count of `link` (parts of a parallel
    /// download report what they wrote since their last report); the
    /// fraction is taken against the recorded size. Returns false, and
    /// changes nothing, when the count would not fit in 64 bits.
    pub fn add_downloaded(&mut self, link: &str, delta: u64) -> (ok: bool)
        requires
            old(self).wf(),
        ensures
            final(self).wf(),
            final(self).ctrl_map() == old(self).ctrl_map(),
            ok == (!old(self).progress_map().contains_key(link@)
                || old(self).progress_map()[link@].downloaded + delta <= u64::MAX),
            ok ==> final(self).progress_map() == update_at(old(self).progress_map(), link@,
                added(delta)),
            !ok ==> final(self).progress_map() == old(self).progress_map(),
    {
        let ghost old_p = self.progress@;
        match self.take(link) {
            Some(mut st) => {
                match st.downloaded.checked_add(delta) {
                    Some(d) => {
                        let total = st.total;
                        st.downloaded = d;
                        if total > 0 {
                            st.progress = ProgressMark::Ratio { done: d, total };
                        }
                        self.put_back(link, st, Ghost(old_p), Ghost(added(delta)));
                        true
                    },
                    None => {
                        let ghost st0 = st;
                        self.put(link, st);
                        proof {
                            assert(old_p.remove(link@).insert(link@, st0) =~= old_p);
                            self.lemma_put(old_p.remove(link@), link@, st0);
                            assert(self.progress_map() =~= old(self).progress_map());
                        }
                        false
                    },
                }
            },
            None => {
                assert(old_p.remove(link@) =~= old_p);
                true
            },
        }
    }

    /// What is reported of `link`: its record, or zeros when it has none.
    pub fn info(&self, link: &str) -> (r: DownloadInfo)
        requires
            self.wf(),
        ensures
            info_view(r) == info_of(self.progress_map(), link@),
    {
        match self.progress.get(link) {
            Some(s) => DownloadInfo {
                progress: s.progress,
                downloaded: s.downloaded,
                total: s.total,
                error: match &s.error {
                    Some(e) => Some(e.clone()),
                    None => None,
                },
                paused: s.paused,
                status: match &s.status {
                    Some(e) => Some(e.clone()),
                    None => None,
                },
            },
            None => DownloadInfo {
                progress: ProgressMark::Zero,
                downloaded: 0,
                total: 0,
                error: None,
                paused: false,
                status: None,
            },
        }
    }

    /// Forgets `link`: its record and its control state.
    pub fn clear(&mut self, link: &str)
        requires
            old(self).wf(),
        ensures
            final(self).wf(),
            final(self).progress_map() == old(self).progress_map().remove(link@),
            final(self).ctrl_map() == old(self).ctrl_map().remove(link@),
    {
        let ghost old_p = self.progress@;
        let _ = self.progress.remove(link);
        let _ = self.ctrl.remove(link);
        assert(self.progress_map() =~= old(self).progress_map().remove(link@));
    }
}

/// The control state last set for a link is the one read back for it; the
/// other links keep theirs.
pub proof fn lemma_ctrl_read_after_write(m: Map<Seq<char>, CtrlState>, link: Seq<char>, other: Seq<char>, st: CtrlState)
    ensures
        ctrl_of(m.insert(link, st), link) == st,
        other != link ==> ctrl_of(m.insert(link, st), other) == ctrl_of(m, other),
{
}

/// A cleared link reads as one never started: running, and all zeros.
pub proof fn lemma_cleared_reads_default(p: Map<Seq<char>, ProgView>, c: Map<Seq<char>, CtrlState>, link: Seq<char>)
    ensures
        ctrl_of(c.remove(link), link) == CtrlState::Running,
        info_of(p.remove(link), link) == (InfoView {
            progress: ProgressMark::Zero,
            downloaded: 0,
            total: 0,
            error: None,
            paused: false,
            status: None,
        }),
{
}

/// A started link reads: running, nothing downloaded, status "Resolving
/// link (Cloudflare)...".
pub proof fn lemma_started_reads_fresh(p: Map<Seq<char>, ProgView>, c: Map<Seq<char>, CtrlState>, link: Seq<char>)
    ensures
        ctrl_of(c.insert(link, CtrlState::Running), link) == CtrlState::Running,
        info_of(p.insert(link, initial_prog()), link) == (InfoView {
            progress: ProgressMark::Zero,
            downloaded: 0,
            total: 0,
            error: None,
            paused: false,
            status: Some(resolving_status()),
        }),
{
}

/// A cancelled download that has a record reports the error "Cancelled",
/// and keeps the rest of its record.
pub proof fn lemma_cancel_reported(p: Map<Seq<char>, ProgView>, link: Seq<char>)
    requires
        p.contains_key(link),
    ensures
        info_of(update_at(p, link, errored(cancelled_message())), link).error == Some(cancelled_message()),
        info_of(update_at(p, link, errored(cancelled_message())), link).downloaded == info_of(p, link).downloaded,
        info_of(update_at(p, link, errored(cancelled_message())), link).paused == info_of(p, link).paused,
{
}

/// Resuming clears the paused flag that a paused transfer set.
pub proof fn lemma_resume_clears_pause(p: Map<Seq<char>, ProgView>, link: Seq<char>)
    requires
        p.contains_key(link),
    ensures
        info_of(update_at(p, link, paused_as(true)), link).paused,
        !info_of(update_at(update_at(p, link, paused_as(true)), link, paused_as(false)), link).paused,
{
}

/// Counting bytes against a known size reports their fraction of it;
/// finishing reports the download complete.
pub proof fn lemma_progress_reports(p: Map<Seq<char>, ProgView>, link: Seq<char>, downloaded: u64, total: u64)
    requires
        p.contains_key(link),
        total > 0,
    ensures
        info_of(update_at(p, link, counted_to(downloaded, total)), link).progress == (ProgressMark::Ratio { done: downloaded, total: total }),
        info_of(update_at(p, link, counted_to(downloaded, total)), link).downloaded == downloaded,
        info_of(update_at(p, link, completed()), link).progress == ProgressMark::Full,
{
}

/// Changes to one link's record leave every other link's report as it was.
pub proof fn lemma_update_is_local(p: Map<Seq<char>, ProgView>, link: Seq<char>, other: Seq<char>, f: spec_fn(ProgView) -> ProgView)
    requires
        other != link,
    ensures
        info_of(update_at(p, link, f), other) == info_of(p, other),
{
}

/// What is reported of a download: after its size is recorded as `total`,
/// the reported total is `total`; byte counts added or recorded later leave
/// it as it is and set the reported byte count: `delta` more after adding
/// `delta`, `downloaded` after recording `downloaded`.
pub proof fn lemma_reported_total(p: Map<Seq<char>, ProgView>, link: Seq<char>, total: u64, delta: u64, downloaded: u64)
    requires
        p.contains_key(link),
        p[link].downloaded + delta <= u64::MAX,
    ensures
        ({
            let q = update_at(p, link, sized(total));
            let a = update_at(q, link, added(delta));
            let c = update_at(q, link, counted_to(downloaded, total));
            &&& info_of(q, link).total == total
            &&& info_of(q, link).downloaded == p[link].downloaded
            &&& info_of(a, link).total == total
            &&& info_of(a, link).downloaded == p[link].downloaded + delta
            &&& info_of(c, link).total == total
            &&& info_of(c, link).downloaded == downloaded
        }),
{
}

/// A download just started, sized as `total` and then given `delta` bytes,
/// reports `delta` of `total` bytes, unpaused and without error.
pub proof fn lemma_started_download_reports(p: Map<Seq<char>, ProgView>, link: Seq<char>, total: u64, delta: u64)
    ensures
        ({
            let q = update_at(update_at(p.insert(link, initial_prog()), link, sized(total)), link, added(delta));
            &&& info_of(q, link).total == total
            &&& info_of(q, link).downloaded == delta
            &&& !info_of(q, link).paused
            &&& info_of(q, link).error.is_none()
        }),
{
}

} // verus!
