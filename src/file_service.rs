//! What the file layer reports about files.

use vstd::prelude::*;

verus! {

/// What is known of one file.
#[derive(Debug)]
pub struct FileMetadata {
    pub path: std::path::PathBuf,
    pub size: u64,
    /// Seconds since the Unix epoch.
    pub modified: u64,
    pub is_markdown: bool,
}

/// A change seen on a watched file.
#[derive(Debug)]
pub struct FileChangeEvent {
    pub path: std::path::PathBuf,
    pub event_type: FileEventType,
}

#[derive(Debug)]
pub enum FileEventType {
    Created,
    Modified,
    Deleted,
    Renamed { from: std::path::PathBuf, to: std::path::PathBuf },
}

/// A path waiting to be reported, with the time of its last change.
#[derive(Debug, Clone)]
pub struct PendingChange {
    pub path: String,
    pub since: u64,
}

/// The mathematical value of the pending changes: path and time of last change.
pub open spec fn view_pending(v: Seq<PendingChange>) -> Seq<(Seq<char>, u64)> {
    v.map_values(|p: PendingChange| (p.path@, p.since))
}

/// The time from `since` to `now`, or zero if `now` is earlier.
pub open spec fn quiet_time(since: u64, now: u64) -> int {
    if now >= since { now - since } else { 0 }
}

/// Whether a change last seen at `since` has been quiet for `delay` at `now`.
pub open spec fn is_ready(since: u64, now: u64, delay: u64) -> bool {
    quiet_time(since, now) >= delay
}

/// The paths among `s` that are ready at `now`, in order.
pub open spec fn ready_paths(s: Seq<(Seq<char>, u64)>, now: u64, delay: u64) -> Seq<Seq<char>>
    decreases s.len(),
{
    if s.len() == 0 {
        Seq::empty()
    } else {
        let prev = ready_paths(s.drop_last(), now, delay);
        if is_ready(s.last().1, now, delay) { prev.push(s.last().0) } else { prev }
    }
}

/// The entries of `s` that are not ready at `now`, in order.
pub open spec fn still_waiting(s: Seq<(Seq<char>, u64)>, now: u64, delay: u64) -> Seq<(Seq<char>, u64)>
    decreases s.len(),
{
    if s.len() == 0 {
        Seq::empty()
    } else {
        let prev = still_waiting(s.drop_last(), now, delay);
        if is_ready(s.last().1, now, delay) { prev } else { prev.push(s.last()) }
    }
}

/// The index of the entry for `path` in `s`, if any.
pub open spec fn index_of(s: Seq<(Seq<char>, u64)>, path: Seq<char>) -> Option<nat>
    decreases s.len(),
{
    if s.len() == 0 {
        None
    } else if s.last().0 == path {
        Some((s.len() - 1) as nat)
    } else {
        index_of(s.drop_last(), path)
    }
}

/// No path occurs twice in `s`.
pub open spec fn distinct_paths(s: Seq<(Seq<char>, u64)>) -> bool {
    forall|i: int, j: int| 0 <= i < j < s.len() ==> s[i].0 != s[j].0
}

proof fn lemma_still_waiting(s: Seq<(Seq<char>, u64)>, now: u64, delay: u64)
    requires
        distinct_paths(s),
    ensures
        distinct_paths(still_waiting(s, now, delay)),
        forall|a: int| 0 <= a < still_waiting(s, now, delay).len() ==> exists|k: int|
            0 <= k < s.len() && s[k] == #[trigger] still_waiting(s, now, delay)[a],
    decreases s.len(),
{
    if s.len() > 0 {
        let t = s.drop_last();
        assert(distinct_paths(t)) by {
            assert forall|i: int, j: int| 0 <= i < j < t.len() implies t[i].0 != t[j].0 by {
                assert(t[i] == s[i] && t[j] == s[j]);
            }
        }
        lemma_still_waiting(t, now, delay);
        let w = still_waiting(t, now, delay);
        assert forall|a: int| 0 <= a < w.len() implies exists|k: int| 0 <= k < s.len() && s[k] == #[trigger] w[a] by {
            let k = choose|k: int| 0 <= k < t.len() && t[k] == w[a];
            assert(s[k] == t[k]);
        }
        if !is_ready(s.last().1, now, delay) {
            let w2 = w.push(s.last());
            assert forall|i: int, j: int| 0 <= i < j < w2.len() implies w2[i].0 != w2[j].0 by {
                if j == w.len() {
                    let k2 = choose|k2: int| 0 <= k2 < t.len() && t[k2] == w[i];
                    assert(s[k2] == w[i]);
                    assert(s[k2].0 != s[s.len() - 1].0);
                } else {
                    assert(w2[i] == w[i] && w2[j] == w[j]);
                }
            }
            assert forall|a: int| 0 <= a < w2.len() implies exists|k: int| 0 <= k < s.len() && s[k] == #[trigger] w2[a] by {
                if a < w.len() {
                    assert(w2[a] == w[a]);
                } else {
                    assert(s[s.len() - 1] == w2[a]);
                }
            }
        }
    }
}

/// Coalesces bursts of change notifications: a changed path is reported
/// once, after it has seen no change for the delay.
pub struct Debouncer {
    pending: Vec<PendingChange>,
    delay: u64,
}

impl Debouncer {
    /// The pending changes, oldest entry first.
    pub closed spec fn pending_spec(&self) -> Seq<(Seq<char>, u64)> {
        view_pending(self.pending@)
    }

    /// Well-formedness: each path is pending at most once.
    pub open spec fn wf(&self) -> bool {
        distinct_paths(self.pending_spec())
    }

    /// How long a path must stay quiet before it is reported.
    pub closed spec fn delay_spec(&self) -> u64 {
        self.delay
    }

    /// A debouncer with nothing pending.
    pub fn new(delay: u64) -> (r: Self)
        ensures
            r.wf(),
            r.pending_spec() == Seq::<(Seq<char>, u64)>::empty(),
            r.delay_spec() == delay,
    {
        let r = Debouncer { pending: Vec::new(), delay };
        assert(view_pending(r.pending@) =~= Seq::<(Seq<char>, u64)>::empty());
        r
    }

    /// Notes a change of `path` at `now`: a path already pending has its
    /// time moved to `now`, another one joins at the end.
    pub fn record(&mut self, path: String, now: u64)
        requires
            old(self).wf(),
        ensures
            final(self).wf(),
            final(self).delay_spec() == old(self).delay_spec(),
            final(self).pending_spec() == (match index_of(old(self).pending_spec(), path@) {
                Some(i) => old(self).pending_spec().update(i as int, (path@, now)),
                None => old(self).pending_spec().push((path@, now)),
            }),
    {
        let ghost s = view_pending(self.pending@);
        let mut i: usize = self.pending.len();
        assert(s.take(i as int) =~= s);
        while i > 0
            invariant
                i <= self.pending.len(),
                s == view_pending(self.pending@),
                index_of(s, path@) == index_of(s.take(i as int), path@),
                forall|k: int| i <= k < s.len() ==> s[k].0 != path@,
            ensures
                i <= self.pending.len(),
                index_of(s, path@) == index_of(s.take(i as int), path@),
                forall|k: int| i <= k < s.len() ==> s[k].0 != path@,
                i > 0 ==> s[i - 1].0 == path@,
            decreases i,
        {
            assert(s.take(i as int).drop_last() =~= s.take(i - 1));
            if self.pending[i - 1].path == path {
                break;
            }
            i -= 1;
        }
        if i > 0 {
            assert(s.take(i as int).last() == s[i - 1]);
            assert(index_of(s, path@) == Some((i - 1) as nat));
            self.pending.set(i - 1, PendingChange { path, since: now });
            assert(view_pending(self.pending@) =~= s.update(i - 1, (path@, now)));
            assert(distinct_paths(s.update(i - 1, (path@, now)))) by {
                let u = s.update(i - 1, (path@, now));
                assert forall|a: int, b: int| 0 <= a < b < u.len() implies u[a].0 != u[b].0 by {
                    assert(u[a].0 == s[a].0 && u[b].0 == s[b].0);
                }
            }
        } else {
            assert(index_of(s, path@) is None);
            self.pending.push(PendingChange { path, since: now });
            assert(view_pending(self.pending@) =~= s.push((path@, now)));
            assert(distinct_paths(s.push((path@, now)))) by {
                let u = s.push((path@, now));
                assert forall|a: int, b: int| 0 <= a < b < u.len() implies u[a].0 != u[b].0 by {
                    assert(u[a] == s[a]);
                    if b < s.len() {
                        assert(u[b] == s[b]);
                    }
                }
            }
        }
    }

    /// Removes and returns, in order, the paths that have been quiet for the
    /// delay at `now`; the others stay pending.
    pub fn take_ready(&mut self, now: u64) -> (r: Vec<String>)
        requires
            old(self).wf(),
        ensures
            final(self).wf(),
            final(self).delay_spec() == old(self).delay_spec(),
            r@.map_values(|p: String| p@) == ready_paths(old(self).pending_spec(), now, old(self).delay_spec()),
            final(self).pending_spec() == still_waiting(old(self).pending_spec(), now, old(self).delay_spec()),
    {
        let ghost s = view_pending(self.pending@);
        let mut ready: Vec<String> = Vec::new();
        let mut waiting: Vec<PendingChange> = Vec::new();
        let mut i: usize = 0;
        while i < self.pending.len()
            invariant
                i <= self.pending.len(),
                s == view_pending(self.pending@),
                ready@.map_values(|p: String| p@) == ready_paths(s.take(i as int), now, self.delay),
                view_pending(waiting@) == still_waiting(s.take(i as int), now, self.delay),
            decreases self.pending.len() - i,
        {
            assert(s.take(i + 1).drop_last() =~= s.take(i as int));
            let since = self.pending[i].since;
            let quiet: u64 = if now >= since { now - since } else { 0 };
            if quiet >= self.delay {
                ready.push(self.pending[i].path.clone());
                assert(ready@.map_values(|p: String| p@) =~= ready_paths(s.take(i + 1), now, self.delay));
            } else {
                waiting.push(self.pending[i].clone_entry());
                assert(view_pending(waiting@) =~= still_waiting(s.take(i + 1), now, self.delay));
            }
            i += 1;
        }
        assert(s.take(i as int) =~= s);
        proof {
            lemma_still_waiting(s, now, self.delay);
        }
        self.pending = waiting;
        ready
    }
}

impl PendingChange {
    /// A copy of this entry.
    pub fn clone_entry(&self) -> (r: Self)
        ensures
            r.path@ == self.path@,
            r.since == self.since,
    {
        PendingChange { path: self.path.clone(), since: self.since }
    }
}

/// The Markdown files among `s`, in order.
pub open spec fn markdown_only(s: Seq<FileMetadata>) -> Seq<FileMetadata>
    decreases s.len(),
{
    if s.len() == 0 {
        Seq::empty()
    } else {
        let prev = markdown_only(s.drop_last());
        if s.last().is_markdown { prev.push(s.last()) } else { prev }
    }
}

/// Whether `s` runs from the most recently modified file to the least.
pub open spec fn recent_first(s: Seq<FileMetadata>) -> bool {
    forall|i: int, j: int| 0 <= i < j < s.len() ==> s[i].modified >= s[j].modified
}

/// The files of `s` modified at time `t`, in order.
pub open spec fn with_time(s: Seq<FileMetadata>, t: u64) -> Seq<FileMetadata>
    decreases s.len(),
{
    if s.len() == 0 {
        Seq::empty()
    } else {
        let prev = with_time(s.drop_last(), t);
        if s.last().modified == t { prev.push(s.last()) } else { prev }
    }
}

proof fn lemma_with_time_concat(a: Seq<FileMetadata>, b: Seq<FileMetadata>, t: u64)
    ensures
        with_time(a + b, t) == with_time(a, t) + with_time(b, t),
    decreases b.len(),
{
    if b.len() == 0 {
        assert(a + b =~= a);
        assert(with_time(a, t) + with_time(b, t) =~= with_time(a, t));
    } else {
        lemma_with_time_concat(a, b.drop_last(), t);
        assert((a + b).drop_last() =~= a + b.drop_last());
        assert((a + b).last() == b.last());
        if b.last().modified == t {
            assert(with_time(a, t) + with_time(b.drop_last(), t).push(b.last()) =~= (with_time(a, t)
                + with_time(b.drop_last(), t)).push(b.last()));
        }
    }
}

proof fn lemma_with_time_none(b: Seq<FileMetadata>, t: u64)
    requires
        forall|i: int| 0 <= i < b.len() ==> (#[trigger] b[i]).modified != t,
    ensures
        with_time(b, t) == Seq::<FileMetadata>::empty(),
    decreases b.len(),
{
    if b.len() > 0 {
        assert forall|i: int| 0 <= i < b.drop_last().len() implies (#[trigger] b.drop_last()[i]).modified != t by {
            assert(b.drop_last()[i] == b[i]);
        }
        lemma_with_time_none(b.drop_last(), t);
    }
}

proof fn lemma_insert_step(prev: Seq<FileMetadata>, k: int, f: FileMetadata, md: Seq<FileMetadata>)
    requires
        0 <= k <= prev.len(),
        recent_first(prev),
        forall|j: int| 0 <= j < k ==> prev[j].modified >= f.modified,
        k < prev.len() ==> prev[k].modified < f.modified,
        prev.to_multiset() == md.to_multiset(),
        forall|t: u64| #[trigger] with_time(prev, t) == with_time(md, t),
    ensures
        recent_first(prev.insert(k, f)),
        prev.insert(k, f).to_multiset() == md.push(f).to_multiset(),
        forall|t: u64| #[trigger] with_time(prev.insert(k, f), t) == with_time(md.push(f), t),
{
    broadcast use vstd::seq_lib::group_to_multiset_ensures;
    prev.insert_ensures(k, f);
    let out = prev.insert(k, f);
    assert(out.remove(k) =~= prev);
    out.to_multiset_ensures();
    assert(out.remove(k).to_multiset() == out.to_multiset().remove(out[k]));
    assert(out.contains(f));
    assert(out.to_multiset().remove(f) =~= prev.to_multiset());
    assert(out.to_multiset() =~= prev.to_multiset().insert(f));
    md.to_multiset_ensures();
    assert(md.push(f).to_multiset() =~= md.to_multiset().insert(f));
    assert forall|i: int, j: int| 0 <= i < j < out.len() implies out[i].modified
        >= out[j].modified by {
        if j < k {
        } else if j == k {
            assert(out[i] == prev[i]);
        } else if i < k {
            assert(out[j] == prev[j - 1]);
            if k < prev.len() {
                assert(prev[k].modified < f.modified);
                assert(prev[k].modified >= prev[j - 1].modified || k == j - 1);
            }
        } else if i == k {
            assert(out[j] == prev[j - 1]);
            assert(prev[k].modified < f.modified);
            assert(prev[k].modified >= prev[j - 1].modified || k == j - 1);
        } else {
            assert(out[i] == prev[i - 1]);
            assert(out[j] == prev[j - 1]);
        }
    }
    let front = prev.subrange(0, k);
    let back = prev.subrange(k, prev.len() as int);
    assert(prev =~= front + back);
    assert(out =~= front.push(f) + back);
    assert forall|t: u64| #[trigger] with_time(out, t) == with_time(md.push(f), t) by {
        lemma_with_time_concat(front, back, t);
        lemma_with_time_concat(front.push(f), back, t);
        assert(front.push(f).drop_last() =~= front);
        assert(md.push(f).drop_last() =~= md);
        assert(with_time(prev, t) == with_time(md, t));
        if f.modified == t {
            assert forall|i: int| 0 <= i < back.len() implies (#[trigger] back[i]).modified != t by {
                assert(back[i] == prev[k + i]);
            }
            lemma_with_time_none(back, t);
            assert(with_time(front, t) + with_time(back, t) =~= with_time(front, t));
            assert(with_time(front, t).push(f) + with_time(back, t) =~= with_time(front, t).push(f));
        }
    }
}

/// Keeps the Markdown files of a listing and orders them from the most
/// recently modified to the least; files modified at the same time keep
/// their order.
pub fn recent_markdown_files(files: Vec<FileMetadata>) -> (r: Vec<FileMetadata>)
    ensures
        recent_first(r@),
        r@.to_multiset() == markdown_only(files@).to_multiset(),
        forall|t: u64| #[trigger] with_time(r@, t) == with_time(markdown_only(files@), t),
{
    broadcast use vstd::seq_lib::group_to_multiset_ensures;
    let ghost all = files@;
    let n = files.len();
    let mut rest = files;
    let mut reversed: Vec<FileMetadata> = Vec::new();
    while rest.len() > 0
        invariant
            rest.len() + reversed.len() == n,
            n == all.len(),
            rest@ == all.take(rest.len() as int),
            forall|k: int| 0 <= k < reversed.len() ==> #[trigger] reversed@[k] == all[n - 1 - k],
        decreases rest.len(),
    {
        let f = rest.pop().unwrap();
        assert(rest@ =~= all.take(rest.len() as int));
        reversed.push(f);
    }
    let mut out: Vec<FileMetadata> = Vec::new();
    assert(all.take(0) =~= Seq::<FileMetadata>::empty());
    while reversed.len() > 0
        invariant
            n == all.len(),
            reversed.len() <= n,
            forall|k: int| 0 <= k < reversed.len() ==> #[trigger] reversed@[k] == all[n - 1 - k],
            recent_first(out@),
            out@.to_multiset() == markdown_only(all.take(n - reversed.len())).to_multiset(),
            forall|t: u64| #[trigger] with_time(out@, t) == with_time(markdown_only(all.take(n - reversed.len())), t),
        decreases reversed.len(),
    {
        let ghost p = (n - reversed.len()) as int;
        let ghost done = all.take(p);
        let f = reversed.pop().unwrap();
        assert(f == all[p]);
        assert(all.take(p + 1).drop_last() =~= done);
        assert(all.take(p + 1).last() == f);
        if f.is_markdown {
            assert(markdown_only(all.take(p + 1)) == markdown_only(done).push(f));
            let mut k: usize = 0;
            while k < out.len() && out[k].modified >= f.modified
                invariant
                    k <= out.len(),
                    forall|j: int| 0 <= j < k ==> out@[j].modified >= f.modified,
                decreases out.len() - k,
            {
                k += 1;
            }
            let ghost prev = out@;
            out.insert(k, f);
            proof {
                lemma_insert_step(prev, k as int, f, markdown_only(done));
                assert(out@ == prev.insert(k as int, f));
            }
        } else {
            assert(markdown_only(all.take(p + 1)) == markdown_only(done));
        }
    }
    assert(all.take(n as int) =~= all);
    out
}

} // verus!
