use vstd::prelude::*;
use vstd::string::*;
use crate::search::{contains_token, str_eq};
use crate::ingestion::{extension_of, extension_of_path};
use crate::text::{chars_of, lower_of, strings_view, to_lower};

verus! {

/// A normalized change to a watched file.
#[derive(Debug, Clone)]
pub enum FileEventType {
    Created,
    Modified,
    Deleted,
    Renamed { from: String, to: String },
}

/// A change event, keyed by the path it concerns, with its time in milliseconds.
#[derive(Debug, Clone)]
pub struct FileWatcherEvent {
    pub id: String,
    pub event_type: FileEventType,
    pub file_path: String,
    pub timestamp_ms: u64,
}

/// What the dispatcher asks the ingestion side to do.
#[derive(Debug, Clone)]
pub enum DispatchAction {
    Ingest(String),
    Delete(String),
}

/// The window within which events for one path collapse into one, in milliseconds.
pub const COALESCE_WINDOW_MS: u64 = 200;

/// The components of a path, split at `/`; there is always at least one.
pub open spec fn components(p: Seq<char>) -> Seq<Seq<char>>
    decreases p.len(),
{
    if p.len() == 0 {
        seq![seq![]]
    } else {
        let r = components(p.drop_last());
        if p.last() == '/' {
            r.push(seq![])
        } else {
            r.update(r.len() - 1, r.last().push(p.last()))
        }
    }
}

proof fn lemma_components_nonempty(p: Seq<char>)
    ensures
        components(p).len() > 0,
    decreases p.len(),
{
    if p.len() > 0 {
        lemma_components_nonempty(p.drop_last());
    }
}

pub open spec fn ends_with(s: Seq<char>, suffix: Seq<char>) -> bool {
    s.len() >= suffix.len() && s.subrange(s.len() - suffix.len(), s.len() as int) == suffix
}

/// Names of temporary and hidden files: dot files, `~` backups, and editor swap and temp files.
pub open spec fn ignored_name(name: Seq<char>) -> bool {
    (name.len() > 0 && (name[0] == '.' || name[0] == '~')) || ends_with(name, ".tmp"@) || ends_with(
        name,
        ".temp"@,
    ) || ends_with(name, ".swp"@) || ends_with(name, ".swo"@)
}

/// Directories whose contents are never ingested.
pub open spec fn excluded_dirs() -> Seq<Seq<char>> {
    seq![".git"@, "node_modules"@, "target"@, "dist"@, "build"@]
}

/// A path is ignored when its file name is a temporary or hidden one, or when one of its
/// ancestor directories is excluded.
pub open spec fn ignored_path(p: Seq<char>) -> bool {
    let cs = components(p);
    ignored_name(cs.last()) || exists|i: int| 0 <= i < cs.len() - 1 && excluded_dirs().contains(#[trigger] cs[i])
}

/// Whether `s` ends with `suffix`.
pub fn has_suffix(s: &Vec<char>, suffix: &str) -> (r: bool)
    ensures
        r == ends_with(s@, suffix@),
{
    let t = chars_of(suffix);
    if s.len() < t.len() {
        return false;
    }
    let off = s.len() - t.len();
    let tail = crate::text::sub_chars(s, off, s.len());
    crate::text::same_chars(&tail, &t)
}

fn excluded_list() -> (r: Vec<String>)
    ensures
        strings_view(r@) == excluded_dirs(),
{
    let v: Vec<String> = vec![
        String::from_str(".git"),
        String::from_str("node_modules"),
        String::from_str("target"),
        String::from_str("dist"),
        String::from_str("build"),
    ];
    assert(strings_view(v@) =~= excluded_dirs());
    v
}

/// Whether changes to this path are ignored.
pub fn should_ignore_file(path: &str) -> (r: bool)
    ensures
        r == ignored_path(path@),
{
    let cs = chars_of(path);
    let excluded = excluded_list();
    // Walk the components; `cur` is the one being read.
    let mut cur: Vec<char> = Vec::new();
    let mut hit = false;
    let mut i: usize = 0;
    let ghost done_parts: Seq<Seq<char>> = seq![];
    while i < cs.len()
        invariant
            i <= cs.len(),
            cs@ == path@,
            strings_view(excluded@) == excluded_dirs(),
            components(cs@.subrange(0, i as int)) == done_parts.push(cur@),
            hit == exists|j: int| 0 <= j < done_parts.len() && excluded_dirs().contains(#[trigger] done_parts[j]),
        decreases cs.len() - i,
    {
        let ghost pre = cs@.subrange(0, i as int);
        let ghost next = cs@.subrange(0, i + 1);
        assert(next.drop_last() =~= pre);
        assert(next.last() == cs@[i as int]);
        if cs[i] == '/' {
            let s = crate::text::string_of(&cur);
            let ex = contains_token(&excluded, s.as_str());
            let ghost old_parts = done_parts;
            proof {
                done_parts = done_parts.push(cur@);
                assert(forall|j: int| 0 <= j < old_parts.len() ==> done_parts[j] == old_parts[j]);
                assert(done_parts[old_parts.len() as int] == cur@);
            }
            hit = hit || ex;
            cur = Vec::new();
            assert(components(next) =~= done_parts.push(cur@));
        } else {
            let ghost old_cur = cur@;
            cur.push(cs[i]);
            assert(components(next) =~= done_parts.push(old_cur).update(done_parts.len() as int, old_cur.push(cs@[i as int])));
            assert(components(next) =~= done_parts.push(cur@));
        }
        i = i + 1;
    }
    assert(cs@.subrange(0, i as int) =~= cs@);
    let ghost parts = components(cs@);
    assert(parts.last() == cur@);
    assert(parts.len() - 1 == done_parts.len());
    assert(forall|j: int| 0 <= j < done_parts.len() ==> parts[j] == done_parts[j]);
    let name_ignored = (cur.len() > 0 && (cur[0] == '.' || cur[0] == '~')) || has_suffix(&cur, ".tmp")
        || has_suffix(&cur, ".temp") || has_suffix(&cur, ".swp") || has_suffix(&cur, ".swo");
    proof {
        if hit {
            let j = choose|j: int| 0 <= j < done_parts.len() && excluded_dirs().contains(#[trigger] done_parts[j]);
            assert(parts[j] == done_parts[j]);
        }
        if exists|j: int| 0 <= j < parts.len() - 1 && excluded_dirs().contains(#[trigger] parts[j]) {
            let j = choose|j: int| 0 <= j < parts.len() - 1 && excluded_dirs().contains(#[trigger] parts[j]);
            assert(done_parts[j] == parts[j]);
        }
    }
    name_ignored || hit
}

/// How strongly an event kind wins over another within one window.
pub open spec fn precedence(k: FileEventType) -> nat {
    match k {
        FileEventType::Deleted => 3,
        FileEventType::Renamed { .. } => 2,
        FileEventType::Modified => 1,
        FileEventType::Created => 0,
    }
}

fn precedence_of(k: &FileEventType) -> (r: u8)
    ensures
        r == precedence(*k),
{
    match k {
        FileEventType::Deleted => 3,
        FileEventType::Renamed { .. } => 2,
        FileEventType::Modified => 1,
        FileEventType::Created => 0,
    }
}

/// What an event asks for: ingest on creation and change, delete on removal, and for a rename
/// delete the old path, then ingest the new one.
pub open spec fn actions_for(e: FileWatcherEvent) -> Seq<DispatchAction> {
    match e.event_type {
        FileEventType::Created => seq![DispatchAction::Ingest(e.file_path)],
        FileEventType::Modified => seq![DispatchAction::Ingest(e.file_path)],
        FileEventType::Deleted => seq![DispatchAction::Delete(e.file_path)],
        FileEventType::Renamed { from, to } => seq![DispatchAction::Delete(from), DispatchAction::Ingest(to)],
    }
}

/// The actions for a sequence of events, in order.
pub open spec fn actions_for_all(es: Seq<FileWatcherEvent>) -> Seq<DispatchAction>
    decreases es.len(),
{
    if es.len() == 0 {
        seq![]
    } else {
        actions_for_all(es.drop_last()) + actions_for(es.last())
    }
}

/// The path an action concerns.
pub open spec fn action_path(a: DispatchAction) -> Seq<char> {
    match a {
        DispatchAction::Ingest(p) => p@,
        DispatchAction::Delete(p) => p@,
    }
}

/// The actions that concern path `p`, in order.
pub open spec fn actions_on(acts: Seq<DispatchAction>, p: Seq<char>) -> Seq<DispatchAction>
    decreases acts.len(),
{
    if acts.len() == 0 {
        seq![]
    } else if action_path(acts.last()) == p {
        actions_on(acts.drop_last(), p).push(acts.last())
    } else {
        actions_on(acts.drop_last(), p)
    }
}

/// The actions of one event.
pub fn dispatch(e: &FileWatcherEvent) -> (r: Vec<DispatchAction>)
    ensures
        r@ == actions_for(*e),
{
    let mut out: Vec<DispatchAction> = Vec::new();
    match &e.event_type {
        FileEventType::Created | FileEventType::Modified => {
            out.push(DispatchAction::Ingest(e.file_path.clone()));
        },
        FileEventType::Deleted => {
            out.push(DispatchAction::Delete(e.file_path.clone()));
        },
        FileEventType::Renamed { from, to } => {
            out.push(DispatchAction::Delete(from.clone()));
            out.push(DispatchAction::Ingest(to.clone()));
        },
    }
    assert(out@ =~= actions_for(*e));
    out
}

/// The actions of a sequence of events, in order.
pub fn dispatch_all(es: &Vec<FileWatcherEvent>) -> (r: Vec<DispatchAction>)
    ensures
        r@ == actions_for_all(es@),
{
    let mut out: Vec<DispatchAction> = Vec::new();
    let mut i: usize = 0;
    while i < es.len()
        invariant
            i <= es.len(),
            out@ == actions_for_all(es@.subrange(0, i as int)),
        decreases es.len() - i,
    {
        let acts = dispatch(&es[i]);
        let ghost next = es@.subrange(0, i + 1);
        assert(next.drop_last() =~= es@.subrange(0, i as int));
        let mut j: usize = 0;
        let ghost base = out@;
        while j < acts.len()
            invariant
                j <= acts.len(),
                out@ == base + acts@.subrange(0, j as int),
            decreases acts.len() - j,
        {
            out.push(acts[j].clone_action());
            assert(acts@.subrange(0, j + 1) =~= acts@.subrange(0, j as int).push(acts@[j as int]));
            assert(out@ =~= base + acts@.subrange(0, j + 1));
            j = j + 1;
        }
        assert(acts@.subrange(0, j as int) =~= acts@);
        i = i + 1;
    }
    assert(es@.subrange(0, i as int) =~= es@);
    out
}

impl DispatchAction {
    pub fn clone_action(&self) -> (r: DispatchAction)
        ensures
            r == *self,
    {
        match self {
            DispatchAction::Ingest(p) => DispatchAction::Ingest(p.clone()),
            DispatchAction::Delete(p) => DispatchAction::Delete(p.clone()),
        }
    }
}

proof fn lemma_actions_on_append(a: Seq<DispatchAction>, b: Seq<DispatchAction>, p: Seq<char>)
    ensures
        actions_on(a + b, p) == actions_on(a, p) + actions_on(b, p),
    decreases b.len(),
{
    if b.len() == 0 {
        assert(a + b =~= a);
        assert(actions_on(b, p) =~= Seq::<DispatchAction>::empty());
        assert(actions_on(a, p) + actions_on(b, p) =~= actions_on(a, p));
    } else {
        lemma_actions_on_append(a, b.drop_last(), p);
        assert((a + b).drop_last() =~= a + b.drop_last());
        assert((a + b).last() == b.last());
        if action_path(b.last()) == p {
            assert(actions_on(a, p) + actions_on(b, p) =~= (actions_on(a, p) + actions_on(b.drop_last(), p)).push(b.last()));
        }
    }
}

/// The actions that concern `p`, event by event.
pub open spec fn per_event_actions_on(es: Seq<FileWatcherEvent>, p: Seq<char>) -> Seq<DispatchAction>
    decreases es.len(),
{
    if es.len() == 0 {
        seq![]
    } else {
        per_event_actions_on(es.drop_last(), p) + actions_on(actions_for(es.last()), p)
    }
}

/// Dispatch keeps each path's order: the actions that concern a path are, in order, those
/// that its events ask for, one event after the other as the events came.
pub proof fn lemma_dispatch_preserves_path_order(es: Seq<FileWatcherEvent>, p: Seq<char>)
    ensures
        actions_on(actions_for_all(es), p) == per_event_actions_on(es, p),
    decreases es.len(),
{
    if es.len() > 0 {
        lemma_dispatch_preserves_path_order(es.drop_last(), p);
        lemma_actions_on_append(actions_for_all(es.drop_last()), actions_for(es.last()), p);
    }
}

impl FileEventType {
    pub fn clone_kind(&self) -> (r: FileEventType)
        ensures
            r == *self,
    {
        match self {
            FileEventType::Created => FileEventType::Created,
            FileEventType::Modified => FileEventType::Modified,
            FileEventType::Deleted => FileEventType::Deleted,
            FileEventType::Renamed { from, to } => FileEventType::Renamed { from: from.clone(), to: to.clone() },
        }
    }
}

impl FileWatcherEvent {
    pub fn clone_event(&self) -> (r: FileWatcherEvent)
        ensures
            r == *self,
    {
        FileWatcherEvent {
            id: self.id.clone(),
            event_type: self.event_type.clone_kind(),
            file_path: self.file_path.clone(),
            timestamp_ms: self.timestamp_ms,
        }
    }
}

/// The last pending entry for path `p`, if any.
pub open spec fn last_for(pending: Seq<(FileWatcherEvent, u64)>, p: Seq<char>) -> Option<int>
    decreases pending.len(),
{
    if pending.len() == 0 {
        None
    } else if pending.last().0.file_path@ == p {
        Some(pending.len() - 1)
    } else {
        last_for(pending.drop_last(), p)
    }
}

/// Whether an event at time `t` falls in the window opened at `start`.
pub open spec fn in_window(start: u64, t: u64) -> bool {
    start <= t && t - start < COALESCE_WINDOW_MS
}

/// The pending entries after event `e` arrives: when the last entry for its path is still
/// in its window, `e` takes its place if it ranks at least as high, and is dropped otherwise;
/// else `e` opens a window of its own, last in line.
pub open spec fn after_push(pending: Seq<(FileWatcherEvent, u64)>, e: FileWatcherEvent) -> Seq<(FileWatcherEvent, u64)> {
    match last_for(pending, e.file_path@) {
        Some(i) => if in_window(pending[i].1, e.timestamp_ms) {
            if precedence(e.event_type) >= precedence(pending[i].0.event_type) {
                pending.update(i, (e, pending[i].1))
            } else {
                pending
            }
        } else {
            pending.push((e, e.timestamp_ms))
        },
        None => pending.push((e, e.timestamp_ms)),
    }
}

/// Whether an entry's window has closed by time `now`.
pub open spec fn window_closed(entry: (FileWatcherEvent, u64), now: u64) -> bool {
    entry.1 as int + COALESCE_WINDOW_MS as int <= now as int
}

/// How many leading entries have closed windows by time `now`.
pub open spec fn ready_count(pending: Seq<(FileWatcherEvent, u64)>, now: u64) -> nat
    decreases pending.len(),
{
    if pending.len() == 0 || !window_closed(pending[0], now) {
        0
    } else {
        1 + ready_count(pending.drop_first(), now)
    }
}

/// Collapses bursts of events for one path into one event per window, and hands events out
/// in the order their windows opened.
pub struct Coalescer {
    pending: Vec<(FileWatcherEvent, u64)>,
}

impl Coalescer {
    /// The events waiting for their windows to close, with the time each window opened.
    pub closed spec fn pending(&self) -> Seq<(FileWatcherEvent, u64)> {
        self.pending@
    }

    pub fn new() -> (r: Coalescer)
        ensures
            r.pending().len() == 0,
    {
        Coalescer { pending: Vec::new() }
    }

    /// Takes in one event.
    pub fn push(&mut self, e: FileWatcherEvent)
        ensures
            final(self).pending() == after_push(old(self).pending(), e),
    {
        let mut i: usize = self.pending.len();
        let ghost ps = self.pending@;
        assert(ps.subrange(0, ps.len() as int) =~= ps);
        while i > 0 && !str_eq(self.pending[i - 1].0.file_path.as_str(), e.file_path.as_str())
            invariant
                i <= self.pending.len(),
                ps == self.pending@,
                last_for(ps, e.file_path@) == last_for(ps.subrange(0, i as int), e.file_path@),
            decreases i,
        {
            let ghost pre = ps.subrange(0, i as int);
            assert(pre.drop_last() =~= ps.subrange(0, i - 1));
            assert(pre.last() == ps[i - 1]);
            i = i - 1;
        }
        proof {
            if i == 0 {
                assert(ps.subrange(0, 0) =~= Seq::<(FileWatcherEvent, u64)>::empty());
            }
        }
        if i > 0 {
            assert(last_for(ps, e.file_path@) == Some(i - 1)) by {
                let pre = ps.subrange(0, i as int);
                assert(pre.last() == ps[i - 1]);
            }
            let start = self.pending[i - 1].1;
            let t = e.timestamp_ms;
            if start <= t && t - start < COALESCE_WINDOW_MS {
                if precedence_of(&e.event_type) >= precedence_of(&self.pending[i - 1].0.event_type) {
                    self.pending.set(i - 1, (e, start));
                }
            } else {
                let t = e.timestamp_ms;
                self.pending.push((e, t));
            }
        } else {
            let t = e.timestamp_ms;
            self.pending.push((e, t));
        }
    }

    /// Hands out, in order, the leading events whose windows have closed by time `now`.
    pub fn flush(&mut self, now: u64) -> (r: Vec<FileWatcherEvent>)
        ensures
            r@ == old(self).pending().subrange(0, ready_count(old(self).pending(), now) as int).map_values(
                |x: (FileWatcherEvent, u64)| x.0,
            ),
            final(self).pending() == old(self).pending().subrange(
                ready_count(old(self).pending(), now) as int,
                old(self).pending().len() as int,
            ),
    {
        let ghost ps = self.pending@;
        let mut out: Vec<FileWatcherEvent> = Vec::new();
        let mut k: usize = 0;
        assert(ps.subrange(0, ps.len() as int) =~= ps);
        assert(ps.subrange(0, 0).map_values(|x: (FileWatcherEvent, u64)| x.0) =~= Seq::<FileWatcherEvent>::empty());
        while k < self.pending.len() && (self.pending[k].1 as u128) + (COALESCE_WINDOW_MS as u128) <= now as u128
            invariant
                ps == self.pending@,
                k <= ps.len(),
                ready_count(ps, now) == k + ready_count(ps.subrange(k as int, ps.len() as int), now),
                out@ == ps.subrange(0, k as int).map_values(|x: (FileWatcherEvent, u64)| x.0),
            decreases ps.len() - k,
        {
            let ghost rest = ps.subrange(k as int, ps.len() as int);
            assert(rest.drop_first() =~= ps.subrange(k + 1, ps.len() as int));
            assert(rest[0] == ps[k as int]);
            out.push(self.pending[k].0.clone_event());
            assert(ps.subrange(0, k + 1).map_values(|x: (FileWatcherEvent, u64)| x.0) =~= ps.subrange(0, k as int).map_values(
                |x: (FileWatcherEvent, u64)| x.0,
            ).push(ps[k as int].0));
            k = k + 1;
        }
        proof {
            let rest = ps.subrange(k as int, ps.len() as int);
            if k < ps.len() {
                assert(rest[0] == ps[k as int]);
                assert(!window_closed(rest[0], now));
            }
            assert(ready_count(rest, now) == 0);
        }
        let mut remaining: Vec<(FileWatcherEvent, u64)> = Vec::new();
        let mut j: usize = k;
        while j < self.pending.len()
            invariant
                ps == self.pending@,
                k <= j <= ps.len(),
                remaining@ == ps.subrange(k as int, j as int),
            decreases ps.len() - j,
        {
            let entry = (self.pending[j].0.clone_event(), self.pending[j].1);
            remaining.push(entry);
            assert(remaining@ =~= ps.subrange(k as int, j + 1));
            j = j + 1;
        }
        self.pending = remaining;
        out
    }
}

/// The watched roots and whether watching is on; starting, stopping, adding and removing are
/// idempotent.
pub struct FileWatcher {
    watch_paths: Vec<String>,
    running: bool,
}

impl FileWatcher {
    pub closed spec fn paths(&self) -> Seq<Seq<char>> {
        strings_view(self.watch_paths@)
    }

    pub closed spec fn running(&self) -> bool {
        self.running
    }

    pub fn new(watch_paths: Vec<String>) -> (r: FileWatcher)
        ensures
            r.paths() == strings_view(watch_paths@),
            !r.running(),
    {
        FileWatcher { watch_paths, running: false }
    }

    /// Turns watching on; true when it was off, so that the caller must start the source.
    pub fn start(&mut self) -> (r: bool)
        ensures
            r == !old(self).running(),
            final(self).running(),
            final(self).paths() == old(self).paths(),
    {
        let was = self.running;
        self.running = true;
        !was
    }

    /// Turns watching off; true when it was on, so that the caller must stop the source.
    pub fn stop(&mut self) -> (r: bool)
        ensures
            r == old(self).running(),
            !final(self).running(),
            final(self).paths() == old(self).paths(),
    {
        let was = self.running;
        self.running = false;
        was
    }

    pub fn is_running(&self) -> (r: bool)
        ensures
            r == self.running(),
    {
        self.running
    }

    pub fn get_watch_paths(&self) -> (r: &Vec<String>)
        ensures
            strings_view(r@) == self.paths(),
    {
        &self.watch_paths
    }

    /// Adds a root; a root already watched is left as it is. True when it was added.
    pub fn add_watch_path(&mut self, path: String) -> (r: bool)
        ensures
            r == !old(self).paths().contains(path@),
            r ==> final(self).paths() == old(self).paths().push(path@),
            !r ==> final(self).paths() == old(self).paths(),
            final(self).running() == old(self).running(),
    {
        if contains_token(&self.watch_paths, path.as_str()) {
            false
        } else {
            let ghost before = strings_view(self.watch_paths@);
            let ghost pv = path@;
            self.watch_paths.push(path);
            assert(strings_view(self.watch_paths@) =~= before.push(pv));
            true
        }
    }

    /// Removes a root; an unknown one is no error. True when it was removed.
    pub fn remove_watch_path(&mut self, path: &str) -> (r: bool)
        ensures
            r == old(self).paths().contains(path@),
            r ==> exists|i: int|
                0 <= i < old(self).paths().len() && old(self).paths()[i] == path@ && final(self).paths()
                    == old(self).paths().remove(i),
            !r ==> final(self).paths() == old(self).paths(),
            final(self).running() == old(self).running(),
    {
        let mut i: usize = 0;
        while i < self.watch_paths.len()
            invariant
                i <= self.watch_paths.len(),
                self.watch_paths@ == old(self).watch_paths@,
                self.running == old(self).running,
                forall|j: int| 0 <= j < i ==> strings_view(self.watch_paths@)[j] != path@,
            decreases self.watch_paths.len() - i,
        {
            if str_eq(self.watch_paths[i].as_str(), path) {
                let ghost before = strings_view(self.watch_paths@);
                assert(before[i as int] == path@);
                self.watch_paths.remove(i);
                assert(strings_view(self.watch_paths@) =~= before.remove(i as int));
                return true;
            }
            i = i + 1;
        }
        false
    }
}

/// The extensions of files that hold text: prose, markup, data and source code.
pub open spec fn text_extensions() -> Seq<Seq<char>> {
    seq!["txt"@, "md"@, "markdown"@, "rst"@, "adoc"@, "asciidoc"@, "html"@, "htm"@, "xml"@, "json"@, "yaml"@, "yml"@, "toml"@, "csv"@, "tsv"@, "log"@, "ini"@, "cfg"@, "conf"@, "js"@, "ts"@, "jsx"@, "tsx"@, "css"@, "scss"@, "sass"@, "py"@, "rs"@, "go"@, "java"@, "c"@, "cpp"@, "h"@, "hpp"@, "rb"@, "php"@, "pl"@, "sh"@, "bash"@, "zsh"@, "fish"@]
}

fn text_extension_list() -> (r: Vec<String>)
    ensures
        strings_view(r@) == text_extensions(),
{
    let v: Vec<String> = vec![
        String::from_str("txt"),
        String::from_str("md"),
        String::from_str("markdown"),
        String::from_str("rst"),
        String::from_str("adoc"),
        String::from_str("asciidoc"),
        String::from_str("html"),
        String::from_str("htm"),
        String::from_str("xml"),
        String::from_str("json"),
        String::from_str("yaml"),
        String::from_str("yml"),
        String::from_str("toml"),
        String::from_str("csv"),
        String::from_str("tsv"),
        String::from_str("log"),
        String::from_str("ini"),
        String::from_str("cfg"),
        String::from_str("conf"),
        String::from_str("js"),
        String::from_str("ts"),
        String::from_str("jsx"),
        String::from_str("tsx"),
        String::from_str("css"),
        String::from_str("scss"),
        String::from_str("sass"),
        String::from_str("py"),
        String::from_str("rs"),
        String::from_str("go"),
        String::from_str("java"),
        String::from_str("c"),
        String::from_str("cpp"),
        String::from_str("h"),
        String::from_str("hpp"),
        String::from_str("rb"),
        String::from_str("php"),
        String::from_str("pl"),
        String::from_str("sh"),
        String::from_str("bash"),
        String::from_str("zsh"),
        String::from_str("fish"),
    ];
    assert(strings_view(v@) =~= text_extensions());
    v
}

/// File-system helpers of the watcher.
pub struct FileSystemUtils;

impl FileSystemUtils {
    /// Whether an extension, in lower case, is one of a text file.
    pub fn is_text_extension(ext: &str) -> (r: bool)
        ensures
            r == text_extensions().contains(lower_of(ext@)),
    {
        let lower = to_lower(ext);
        contains_token(&text_extension_list(), lower.as_str())
    }

    /// Whether the file's extension is one of a text file; a file without one is not.
    pub fn is_text_file(path: &str) -> (r: bool)
        ensures
            r == text_ext_opt(extension_of(path@)),
    {
        let ext = extension_of_path(path);
        let r = match &ext {
            Some(e) => Self::is_text_extension(e.as_str()),
            None => false,
        };
        proof {
            match ext {
                Some(x) => assert(r == text_ext_opt(Some(x@))),
                None => assert(r == text_ext_opt(None)),
            }
        }
        r
    }
}

/// Whether an optional extension is present and, in lower case, one of a text file.
pub open spec fn text_ext_opt(e: Option<Seq<char>>) -> bool {
    e matches Some(x) && text_extensions().contains(lower_of(x))
}

} // verus!
