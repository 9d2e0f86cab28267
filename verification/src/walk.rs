//! What a traversal counts, how the sizes it reports add up, and the
//! results that a count hands back.
//!
//! The traversal itself (reading metadata and directories, on worker
//! threads) happens outside this module: each visited entry is described by
//! a [`Probe`], [`visit`] decides what it contributes, and the messages that
//! result are folded by a [`Tally`] (one total) or an [`EntriesTally`] (one
//! total per direct child).

use vstd::prelude::*;
use std::collections::HashSet;
use std::path::PathBuf;

verus! {

broadcast use vstd::std_specs::hash::group_hash_axioms;

/// Specifies whether directory sizes should be counted.
#[derive(Clone, Copy, Debug, PartialEq, Eq, Structural)]
pub enum Directories {
    /// Automatically match `du` behavior based on the type of the size being counted:
    /// directories are included for disk usage, but excluded for apparent size.
    Auto,
    /// Count both files and directories (matches `du -s` behavior).
    Included,
    /// Count only files, not directories (matches `du -sb` behavior).
    Excluded,
}

impl Default for Directories {
    fn default() -> (d: Self)
        ensures
            d == Directories::Auto,
    {
        Directories::Auto
    }
}

/// Which size of an entry is counted.
#[derive(Clone, Copy, Debug, PartialEq, Eq, Structural)]
pub enum CountType {
    /// The space the entry occupies on disk.
    DiskUsage,
    /// The length of the entry's contents.
    ApparentSize,
}

impl Default for CountType {
    fn default() -> (c: Self)
        ensures
            c == CountType::DiskUsage,
    {
        CountType::DiskUsage
    }
}

/// Identifies an inode that has more than one hard link, so that it is
/// counted only once.
#[derive(Clone, Copy, Debug, PartialEq, Eq, Hash, Structural)]
pub struct UniqueId {
    pub device: u64,
    pub inode: u64,
}

/// The integer that stands for an id in a set of seen ids.
pub open spec fn id_key(id: UniqueId) -> int {
    id.device * 0x1_0000_0000_0000_0000 + id.inode
}

/// Two different ids never share a key.
pub proof fn lemma_id_key_injective(a: UniqueId, b: UniqueId)
    ensures
        id_key(a) == id_key(b) ==> a == b,
        0 <= id_key(a) < 0x1_0000_0000_0000_0000_0000_0000_0000_0000,
{
    if a.device < b.device {
        assert(id_key(a) < (a.device + 1) * 0x1_0000_0000_0000_0000);
        assert((a.device + 1) * 0x1_0000_0000_0000_0000 <= b.device * 0x1_0000_0000_0000_0000);
    } else if b.device < a.device {
        assert(id_key(b) < (b.device + 1) * 0x1_0000_0000_0000_0000);
        assert((b.device + 1) * 0x1_0000_0000_0000_0000 <= a.device * 0x1_0000_0000_0000_0000);
    }
    assert(a.device * 0x1_0000_0000_0000_0000 <= 0xffff_ffff_ffff_ffff * 0x1_0000_0000_0000_0000);
}

impl UniqueId {
    /// The key of this id in a set of seen ids.
    pub fn key(&self) -> (k: u128)
        ensures
            k == id_key(*self),
    {
        proof {
            lemma_id_key_injective(*self, *self);
        }
        (self.device as u128) * 0x1_0000_0000_0000_0000u128 + (self.inode as u128)
    }
}

/// A problem met while traversing, with the path it concerns.
#[derive(Debug)]
pub enum Error {
    NoMetadataForPath(PathBuf),
    CouldNotReadDir(PathBuf),
}

/// What one visited entry reports to a [`Tally`].
#[derive(Debug)]
pub enum Message {
    SizeEntry(Option<UniqueId>, u64),
    Error { error: Error },
}

/// What one visited entry below the direct child number `index` reports to
/// an [`EntriesTally`].
#[derive(Debug)]
pub enum EntryMessage {
    SizeEntry { index: usize, unique_id: Option<UniqueId>, size: u64 },
    Error { index: usize, error: Error },
}

// ---------------------------------------------------------------------------
// The meaning of a stream of messages.

/// The ids of all size entries in `msgs`.
pub open spec fn seen_ids(msgs: Seq<Message>) -> Set<UniqueId>
    decreases msgs.len(),
{
    if msgs.len() == 0 {
        Set::empty()
    } else {
        let prev = seen_ids(msgs.drop_last());
        match msgs.last() {
            Message::SizeEntry(Some(id), _) => prev.insert(id),
            _ => prev,
        }
    }
}

/// What the last message of `msgs` adds to the total: its size, unless it
/// carries an id that an earlier message already carried.
pub open spec fn contribution(msgs: Seq<Message>) -> int
    recommends
        msgs.len() > 0,
{
    match msgs.last() {
        Message::SizeEntry(None, size) => size as int,
        Message::SizeEntry(Some(id), size) => if seen_ids(msgs.drop_last()).contains(id) {
            0
        } else {
            size as int
        },
        Message::Error { .. } => 0,
    }
}

/// The total size that the messages `msgs` add up to: every entry without an
/// id once, and every id once, with the size of its first occurrence.
pub open spec fn total_of(msgs: Seq<Message>) -> int
    decreases msgs.len(),
{
    if msgs.len() == 0 {
        0
    } else {
        total_of(msgs.drop_last()) + contribution(msgs)
    }
}

/// The errors that `msgs` carry, in the order in which they arrived.
pub open spec fn errors_of(msgs: Seq<Message>) -> Seq<Error>
    decreases msgs.len(),
{
    if msgs.len() == 0 {
        Seq::empty()
    } else {
        let prev = errors_of(msgs.drop_last());
        match msgs.last() {
            Message::Error { error } => prev.push(error),
            _ => prev,
        }
    }
}

/// The index that an entry message belongs to.
pub open spec fn entry_index(m: EntryMessage) -> usize {
    match m {
        EntryMessage::SizeEntry { index, .. } => index,
        EntryMessage::Error { index, .. } => index,
    }
}

/// An entry message with its index dropped.
pub open spec fn without_index(m: EntryMessage) -> Message {
    match m {
        EntryMessage::SizeEntry { unique_id, size, .. } => Message::SizeEntry(unique_id, size),
        EntryMessage::Error { error, .. } => Message::Error { error },
    }
}

/// The messages of `msgs` that belong to the direct child number `i`, in order.
pub open spec fn messages_for(msgs: Seq<EntryMessage>, i: int) -> Seq<Message>
    decreases msgs.len(),
{
    if msgs.len() == 0 {
        Seq::empty()
    } else {
        let prev = messages_for(msgs.drop_last(), i);
        if entry_index(msgs.last()) == i {
            prev.push(without_index(msgs.last()))
        } else {
            prev
        }
    }
}


// ---------------------------------------------------------------------------
// Results.

/// The result of a disk usage computation.
#[derive(Debug)]
pub struct DiskUsageResult {
    size_in_bytes: u64,
    errors: Vec<Error>,
}

impl DiskUsageResult {
    /// The total size, whether or not errors occurred.
    pub closed spec fn total(&self) -> u64 {
        self.size_in_bytes
    }

    /// The errors met while counting, in the order in which they arrived.
    pub closed spec fn problems(&self) -> Seq<Error> {
        self.errors@
    }

    /// Returns the total size in bytes, or the errors if any occurred.
    pub fn size_in_bytes(&self) -> (r: Result<u64, &[Error]>)
        ensures
            match r {
                Ok(size) => self.problems().len() == 0 && size == self.total(),
                Err(errors) => self.problems().len() > 0 && errors@ == self.problems(),
            },
    {
        if self.errors.is_empty() {
            Ok(self.size_in_bytes)
        } else {
            Err(self.errors.as_slice())
        }
    }

    /// Ignore any errors and return a result that provides direct access to the size.
    pub fn ignore_errors(&self) -> (r: UncheckedDiskUsageResult)
        ensures
            r.total() == self.total(),
    {
        UncheckedDiskUsageResult { size_in_bytes: self.size_in_bytes }
    }

    /// Returns any errors encountered during traversal.
    pub fn errors(&self) -> (r: &[Error])
        ensures
            r@ == self.problems(),
    {
        self.errors.as_slice()
    }

    /// Returns `true` if no errors occurred during traversal.
    pub fn is_ok(&self) -> (r: bool)
        ensures
            r == (self.problems().len() == 0),
    {
        self.errors.is_empty()
    }
}

/// A disk usage result where errors have been explicitly ignored.
#[derive(Debug)]
pub struct UncheckedDiskUsageResult {
    size_in_bytes: u64,
}

impl UncheckedDiskUsageResult {
    /// The total size.
    pub closed spec fn total(&self) -> u64 {
        self.size_in_bytes
    }

    /// Returns the total size in bytes.
    pub fn size_in_bytes(&self) -> (r: u64)
        ensures
            r == self.total(),
    {
        self.size_in_bytes
    }
}

/// The size result for one filesystem entry.
#[derive(Debug)]
pub struct DiskUsageEntry {
    path: PathBuf,
    result: DiskUsageResult,
}

impl DiskUsageEntry {
    /// The path this result belongs to.
    pub closed spec fn entry_path(&self) -> PathBuf {
        self.path
    }

    /// The disk usage result for this path.
    pub closed spec fn entry_result(&self) -> DiskUsageResult {
        self.result
    }

    /// Returns the path this result belongs to.
    pub fn path(&self) -> (r: &PathBuf)
        ensures
            *r == self.entry_path(),
    {
        &self.path
    }

    /// Returns the disk usage result for this path.
    pub fn result(&self) -> (r: &DiskUsageResult)
        ensures
            *r == self.entry_result(),
    {
        &self.result
    }
}

/// The result of a direct-entry disk usage computation.
#[derive(Debug)]
pub struct DiskUsageEntriesResult {
    entries: Vec<DiskUsageEntry>,
    errors: Vec<Error>,
}

/// Whether every entry of `entries` counted without errors.
pub open spec fn all_entries_ok(entries: Seq<DiskUsageEntry>) -> bool {
    forall|i: int| 0 <= i < entries.len() ==> (#[trigger] entries[i]).entry_result().problems().len() == 0
}

impl DiskUsageEntriesResult {
    /// The results for the direct entries, in the order of their paths.
    pub closed spec fn entry_results(&self) -> Seq<DiskUsageEntry> {
        self.entries@
    }

    /// The errors met while resolving or reading the requested root paths.
    pub closed spec fn problems(&self) -> Seq<Error> {
        self.errors@
    }

    /// Returns the results for direct entries below the requested root paths.
    pub fn entries(&self) -> (r: &[DiskUsageEntry])
        ensures
            r@ == self.entry_results(),
    {
        self.entries.as_slice()
    }

    /// Returns errors encountered while resolving or reading the requested root paths.
    pub fn errors(&self) -> (r: &[Error])
        ensures
            r@ == self.problems(),
    {
        self.errors.as_slice()
    }

    /// Returns `true` if no root or entry errors occurred during traversal.
    pub fn is_ok(&self) -> (r: bool)
        ensures
            r == (self.problems().len() == 0 && all_entries_ok(self.entry_results())),
    {
        if !self.errors.is_empty() {
            return false;
        }
        let mut i: usize = 0;
        while i < self.entries.len()
            invariant
                i <= self.entries@.len(),
                forall|j: int| 0 <= j < i ==> (#[trigger] self.entries@[j]).entry_result().problems().len() == 0,
            decreases self.entries@.len() - i,
        {
            if !self.entries[i].result.is_ok() {
                return false;
            }
            i = i + 1;
        }
        true
    }
}

// ---------------------------------------------------------------------------
// Folding messages into a total.

/// Whether the set of keys `keys` holds exactly the keys of the ids in `seen`.
pub open spec fn keys_match(keys: Set<u128>, seen: Set<UniqueId>) -> bool {
    forall|id: UniqueId| #[trigger] keys.contains(id_key(id) as u128) <==> seen.contains(id)
}

/// Adds up the size entries that a traversal reports, counting every id
/// once, and keeps its errors.
pub struct Tally {
    total: u64,
    ids: HashSet<u128>,
    errors: Vec<Error>,
    received: Ghost<Seq<Message>>,
}

/// After a first message with the id `id`, the seen keys include its key.
proof fn lemma_keys_insert(keys: Set<u128>, seen: Set<UniqueId>, id: UniqueId)
    requires
        keys_match(keys, seen),
    ensures
        keys_match(keys.insert(id_key(id) as u128), seen.insert(id)),
{
    assert forall|other: UniqueId|
        #[trigger] keys.insert(id_key(id) as u128).contains(id_key(other) as u128)
            <==> seen.insert(id).contains(other) by {
        lemma_id_key_injective(id, other);
        lemma_id_key_injective(other, other);
        lemma_id_key_injective(id, id);
    }
}

impl Tally {
    /// The messages folded so far, in order.
    pub closed spec fn received(&self) -> Seq<Message> {
        self.received@
    }

    /// The tally's state reflects exactly the messages received.
    pub closed spec fn wf(&self) -> bool {
        &&& self.total == total_of(self.received@)
        &&& self.errors@ == errors_of(self.received@)
        &&& keys_match(self.ids@, seen_ids(self.received@))
    }

    /// A tally that has received nothing.
    pub fn new() -> (t: Tally)
        ensures
            t.wf(),
            t.received() == Seq::<Message>::empty(),
    {
        Tally { total: 0, ids: HashSet::new(), errors: Vec::new(), received: Ghost(Seq::empty()) }
    }

    /// Whether the total after `msg` still fits in a `u64`.
    pub fn fits(&self, msg: &Message) -> (b: bool)
        requires
            self.wf(),
        ensures
            b == (total_of(self.received().push(*msg)) <= u64::MAX),
    {
        let ghost after = self.received@.push(*msg);
        assert(after.drop_last() =~= self.received@);
        match msg {
            Message::SizeEntry(unique_id, size) => {
                let counted = match unique_id {
                    Some(id) => {
                        let k = id.key();
                        proof {
                            lemma_id_key_injective(*id, *id);
                            assert(k == id_key(*id) as u128);
                            assert(self.ids@.contains(id_key(*id) as u128) == seen_ids(self.received@).contains(*id));
                        }
                        !self.ids.contains(&k)
                    },
                    None => true,
                };
                if counted {
                    *size <= u64::MAX - self.total
                } else {
                    true
                }
            },
            Message::Error { .. } => true,
        }
    }

    /// Folds one message into the tally.
    pub fn record(&mut self, msg: Message)
        requires
            old(self).wf(),
            total_of(old(self).received().push(msg)) <= u64::MAX,
        ensures
            final(self).wf(),
            final(self).received() == old(self).received().push(msg),
    {
        let ghost after = self.received@.push(msg);
        assert(after.drop_last() =~= self.received@);
        match msg {
            Message::SizeEntry(unique_id, size) => {
                match unique_id {
                    Some(id) => {
                        let k = id.key();
                        proof {
                            lemma_id_key_injective(id, id);
                            lemma_keys_insert(self.ids@, seen_ids(self.received@), id);
                        }
                        if self.ids.insert(k) {
                            self.total = self.total + size;
                        }
                    },
                    None => {
                        self.total = self.total + size;
                    },
                }
            },
            Message::Error { error } => {
                self.errors.push(error);
            },
        }
        self.received = Ghost(after);
    }

    /// The result of the messages received.
    pub fn finish(self) -> (r: DiskUsageResult)
        requires
            self.wf(),
        ensures
            r.total() == total_of(self.received()),
            r.problems() == errors_of(self.received()),
    {
        DiskUsageResult { size_in_bytes: self.total, errors: self.errors }
    }
}


// ---------------------------------------------------------------------------
// Direct children of the roots.

/// What was found at one root path when listing its direct children.
#[derive(Debug)]
pub enum RootProbe {
    /// No metadata could be read for the root.
    Missing(PathBuf),
    /// The root is a directory whose contents could not be read.
    Unreadable(PathBuf),
    /// The root is not a directory: it is its own only entry.
    NotDirectory(PathBuf),
    /// The root is a directory with these children, in the order listed.
    Directory(Vec<PathBuf>),
}

/// The entries that the probes `probes` contribute, in order.
pub open spec fn probe_paths(probes: Seq<RootProbe>) -> Seq<PathBuf>
    decreases probes.len(),
{
    if probes.len() == 0 {
        Seq::empty()
    } else {
        let prev = probe_paths(probes.drop_last());
        match probes.last() {
            RootProbe::NotDirectory(root) => prev.push(root),
            RootProbe::Directory(children) => prev + children@,
            _ => prev,
        }
    }
}

/// The errors that the probes `probes` report, in order.
pub open spec fn probe_errors(probes: Seq<RootProbe>) -> Seq<Error>
    decreases probes.len(),
{
    if probes.len() == 0 {
        Seq::empty()
    } else {
        let prev = probe_errors(probes.drop_last());
        match probes.last() {
            RootProbe::Missing(root) => prev.push(Error::NoMetadataForPath(root)),
            RootProbe::Unreadable(root) => prev.push(Error::CouldNotReadDir(root)),
            _ => prev,
        }
    }
}

/// Gathers the direct entries below the roots: the children of each readable
/// directory, and each root that is not a directory, in order; and an error
/// for each root that has no metadata or cannot be read.
pub fn collect_direct_children(probes: Vec<RootProbe>) -> (r: (Vec<PathBuf>, Vec<Error>))
    ensures
        r.0@ == probe_paths(probes@),
        r.1@ == probe_errors(probes@),
        forall|i: int, j: int|
            0 <= i < probes@.len() && 0 <= j < own_entries(probes@[i]).len() ==> r.0@.contains(
                #[trigger] own_entries(probes@[i])[j],
            ),
{
    let ghost given = probes@;
    let r = collect_probes(probes);
    proof {
        assert forall|i: int, j: int|
            0 <= i < given.len() && 0 <= j < own_entries(given[i]).len() implies r.0@.contains(
                #[trigger] own_entries(given[i])[j],
            ) by {
            lemma_every_entry_listed(given, i);
        }
    }
    r
}

/// The entries that one root contributes: the children of a readable
/// directory, or the root itself when it is not a directory.
pub open spec fn own_entries(p: RootProbe) -> Seq<PathBuf> {
    match p {
        RootProbe::NotDirectory(root) => seq![root],
        RootProbe::Directory(children) => children@,
        _ => Seq::empty(),
    }
}

/// Gathers the entries and errors of the probes, in order.
fn collect_probes(probes: Vec<RootProbe>) -> (r: (Vec<PathBuf>, Vec<Error>))
    ensures
        r.0@ == probe_paths(probes@),
        r.1@ == probe_errors(probes@),
{
    let mut probes = probes;
    let ghost original = probes@;
    let mut paths: Vec<PathBuf> = Vec::new();
    let mut errors: Vec<Error> = Vec::new();
    let mut i: usize = 0;
    while i < probes.len()
        invariant
            i <= probes@.len(),
            probes@.len() == original.len(),
            forall|j: int| i <= j < original.len() ==> probes@[j] == original[j],
            paths@ == probe_paths(original.take(i as int)),
            errors@ == probe_errors(original.take(i as int)),
        decreases probes@.len() - i,
    {
        let mut probe = RootProbe::Directory(Vec::new());
        std::mem::swap(&mut probe, &mut probes[i]);
        assert(original.take(i + 1).drop_last() =~= original.take(i as int));
        assert(original.take(i + 1).last() == probe);
        match probe {
            RootProbe::Missing(root) => errors.push(Error::NoMetadataForPath(root)),
            RootProbe::Unreadable(root) => errors.push(Error::CouldNotReadDir(root)),
            RootProbe::NotDirectory(root) => paths.push(root),
            RootProbe::Directory(children) => {
                let mut children = children;
                paths.append(&mut children);
            },
        }
        i = i + 1;
    }
    assert(original.take(i as int) =~= original);
    (paths, errors)
}

// ---------------------------------------------------------------------------
// Folding messages into one total per direct child.

/// Adds up, separately for each direct child, the size entries that the
/// traversal of that child reports. Each child counts each of its ids once;
/// a hard link shared by two children counts in both.
pub struct EntriesTally {
    totals: Vec<u64>,
    errors: Vec<Vec<Error>>,
    ids: Vec<HashSet<u128>>,
    received: Ghost<Seq<EntryMessage>>,
}

/// How the messages of child `j` change when `m` arrives.
proof fn lemma_messages_for_push(msgs: Seq<EntryMessage>, m: EntryMessage, j: int)
    ensures
        messages_for(msgs.push(m), j) == if entry_index(m) == j {
            messages_for(msgs, j).push(without_index(m))
        } else {
            messages_for(msgs, j)
        },
{
    assert(msgs.push(m).drop_last() =~= msgs);
}

impl EntriesTally {
    /// The messages folded so far, in order.
    pub closed spec fn received(&self) -> Seq<EntryMessage> {
        self.received@
    }

    /// The number of direct children.
    pub closed spec fn count(&self) -> nat {
        self.totals@.len()
    }

    /// The tally's state reflects exactly the messages received, child by child.
    pub closed spec fn wf(&self) -> bool {
        &&& self.errors@.len() == self.totals@.len()
        &&& self.ids@.len() == self.totals@.len()
        &&& forall|i: int| 0 <= i < self.totals@.len() ==> #[trigger] self.child_consistent(i)
    }

    /// The state kept for child `i` reflects exactly the messages of child `i`.
    closed spec fn child_consistent(&self, i: int) -> bool {
        &&& self.totals@[i] == total_of(messages_for(self.received@, i))
        &&& self.errors@[i]@ == errors_of(messages_for(self.received@, i))
        &&& keys_match(self.ids@[i]@, seen_ids(messages_for(self.received@, i)))
    }

    /// A tally for `count` direct children that has received nothing.
    pub fn new(count: usize) -> (t: EntriesTally)
        ensures
            t.wf(),
            t.count() == count,
            t.received() == Seq::<EntryMessage>::empty(),
    {
        let mut totals: Vec<u64> = Vec::new();
        let mut errors: Vec<Vec<Error>> = Vec::new();
        let mut ids: Vec<HashSet<u128>> = Vec::new();
        let mut i: usize = 0;
        while i < count
            invariant
                i <= count,
                totals@.len() == i,
                errors@.len() == i,
                ids@.len() == i,
                forall|j: int| 0 <= j < i ==> #[trigger] totals@[j] == 0,
                forall|j: int| 0 <= j < i ==> #[trigger] errors@[j]@ == Seq::<Error>::empty(),
                forall|j: int| 0 <= j < i ==> #[trigger] ids@[j]@ == Set::<u128>::empty(),
            decreases count - i,
        {
            totals.push(0);
            errors.push(Vec::new());
            ids.push(HashSet::new());
            i = i + 1;
        }
        let t = EntriesTally { totals, errors, ids, received: Ghost(Seq::empty()) };
        assert forall|j: int| 0 <= j < t.totals@.len() implies #[trigger] t.child_consistent(j) by {
            assert(t.ids@[j]@ == Set::<u128>::empty());
            assert(t.totals@[j] == 0);
            assert(t.errors@[j]@ == Seq::<Error>::empty());
        }
        t
    }

    /// Whether the total of the child that `msg` belongs to still fits in a
    /// `u64` after `msg`.
    pub fn fits(&self, msg: &EntryMessage) -> (b: bool)
        requires
            self.wf(),
            entry_index(*msg) < self.count(),
        ensures
            b == (total_of(messages_for(self.received().push(*msg), entry_index(*msg) as int))
                <= u64::MAX),
    {
        let ghost idx = entry_index(*msg) as int;
        let ghost before = messages_for(self.received@, idx);
        proof {
            assert(self.child_consistent(idx));
            lemma_messages_for_push(self.received@, *msg, idx);
            assert(before.push(without_index(*msg)).drop_last() =~= before);
        }
        match msg {
            EntryMessage::SizeEntry { index, unique_id, size } => {
                let counted = match unique_id {
                    Some(id) => {
                        let k = id.key();
                        proof {
                            lemma_id_key_injective(*id, *id);
                            assert(k == id_key(*id) as u128);
                            assert(self.ids@[idx]@.contains(id_key(*id) as u128) == seen_ids(before).contains(*id));
                        }
                        !self.ids[*index].contains(&k)
                    },
                    None => true,
                };
                if counted {
                    *size <= u64::MAX - self.totals[*index]
                } else {
                    true
                }
            },
            EntryMessage::Error { .. } => true,
        }
    }

    /// Folds one message into the total of its child.
    pub fn record(&mut self, msg: EntryMessage)
        requires
            old(self).wf(),
            entry_index(msg) < old(self).count(),
            total_of(messages_for(old(self).received().push(msg), entry_index(msg) as int))
                <= u64::MAX,
        ensures
            final(self).wf(),
            final(self).count() == old(self).count(),
            final(self).received() == old(self).received().push(msg),
    {
        let ghost old_self = *self;
        let ghost idx = entry_index(msg) as int;
        let ghost before = messages_for(self.received@, idx);
        let ghost after = self.received@.push(msg);
        proof {
            assert(self.child_consistent(idx));
            lemma_messages_for_push(self.received@, msg, idx);
            assert(before.push(without_index(msg)).drop_last() =~= before);
        }
        match msg {
            EntryMessage::SizeEntry { index, unique_id, size } => {
                match unique_id {
                    Some(id) => {
                        let k = id.key();
                        proof {
                            lemma_id_key_injective(id, id);
                            lemma_keys_insert(self.ids@[idx]@, seen_ids(before), id);
                        }
                        if self.ids[index].insert(k) {
                            self.totals[index] = self.totals[index] + size;
                        }
                    },
                    None => {
                        self.totals[index] = self.totals[index] + size;
                    },
                }
            },
            EntryMessage::Error { index, error } => {
                self.errors[index].push(error);
            },
        }
        self.received = Ghost(after);
        assert forall|j: int| 0 <= j < self.totals@.len() implies #[trigger] self.child_consistent(j) by {
            assert(old_self.child_consistent(j));
            lemma_messages_for_push(old_self.received@, msg, j);
        }
    }

    /// The entries at `paths` (one per direct child, in order), each with the
    /// result of its own messages, and the errors `errors` met finding them.
    pub fn finish(self, paths: Vec<PathBuf>, errors: Vec<Error>) -> (r: DiskUsageEntriesResult)
        requires
            self.wf(),
            paths@.len() == self.count(),
        ensures
            r.problems() == errors@,
            r.entry_results().len() == self.count(),
            forall|i: int|
                0 <= i < self.count() ==> {
                    &&& (#[trigger] r.entry_results()[i]).entry_path() == paths@[i]
                    &&& r.entry_results()[i].entry_result().total() == total_of(
                        messages_for(self.received(), i),
                    )
                    &&& r.entry_results()[i].entry_result().problems() == errors_of(
                        messages_for(self.received(), i),
                    )
                },
    {
        let ghost tally = self;
        let root_errors = errors;
        let EntriesTally { totals, errors, ids: _, received: _ } = self;
        let mut errors = errors;
        let mut paths = paths;
        let ghost orig_errors = errors@;
        let ghost orig_paths = paths@;
        let n = totals.len();
        // The entries from the last to the first.
        let mut reversed: Vec<DiskUsageEntry> = Vec::new();
        let mut t: usize = 0;
        while t < n
            invariant
                n == totals@.len(),
                orig_errors.len() == n,
                orig_paths.len() == n,
                t <= n,
                errors@ == orig_errors.take(n - t),
                paths@ == orig_paths.take(n - t),
                reversed@.len() == t,
                forall|j: int|
                    0 <= j < t ==> {
                        &&& (#[trigger] reversed@[j]).path == orig_paths[n - 1 - j]
                        &&& reversed@[j].result.size_in_bytes == totals@[n - 1 - j]
                        &&& reversed@[j].result.errors == orig_errors[n - 1 - j]
                    },
            decreases n - t,
        {
            let path = match paths.pop() {
                Some(p) => p,
                None => {
                    assert(false);
                    return DiskUsageEntriesResult { entries: Vec::new(), errors: root_errors };
                },
            };
            let entry_errors = match errors.pop() {
                Some(e) => e,
                None => {
                    assert(false);
                    return DiskUsageEntriesResult { entries: Vec::new(), errors: root_errors };
                },
            };
            assert(orig_paths.take(n - t).drop_last() =~= orig_paths.take(n - t - 1));
            assert(orig_errors.take(n - t).drop_last() =~= orig_errors.take(n - t - 1));
            reversed.push(
                DiskUsageEntry {
                    path,
                    result: DiskUsageResult {
                        size_in_bytes: totals[n - 1 - t],
                        errors: entry_errors,
                    },
                },
            );
            t = t + 1;
        }
        let mut entries: Vec<DiskUsageEntry> = Vec::new();
        let mut k: usize = 0;
        while k < n
            invariant
                n == totals@.len(),
                orig_errors.len() == n,
                orig_paths.len() == n,
                k <= n,
                reversed@.len() == n - k,
                entries@.len() == k,
                forall|j: int|
                    0 <= j < n - k ==> {
                        &&& (#[trigger] reversed@[j]).path == orig_paths[n - 1 - j]
                        &&& reversed@[j].result.size_in_bytes == totals@[n - 1 - j]
                        &&& reversed@[j].result.errors == orig_errors[n - 1 - j]
                    },
                forall|j: int|
                    0 <= j < k ==> {
                        &&& (#[trigger] entries@[j]).path == orig_paths[j]
                        &&& entries@[j].result.size_in_bytes == totals@[j]
                        &&& entries@[j].result.errors == orig_errors[j]
                    },
            decreases n - k,
        {
            let entry = match reversed.pop() {
                Some(e) => e,
                None => {
                    assert(false);
                    return DiskUsageEntriesResult { entries: Vec::new(), errors: root_errors };
                },
            };
            entries.push(entry);
            k = k + 1;
        }
        let r = DiskUsageEntriesResult { entries, errors: root_errors };
        assert forall|j: int| 0 <= j < tally.count() implies {
            &&& (#[trigger] r.entry_results()[j]).entry_path() == orig_paths[j]
            &&& r.entry_results()[j].entry_result().total() == total_of(messages_for(tally.received(), j))
            &&& r.entry_results()[j].entry_result().problems() == errors_of(messages_for(tally.received(), j))
        } by {
            assert(tally.child_consistent(j));
        }
        r
    }
}

// ---------------------------------------------------------------------------
// What one visited entry contributes.

/// Whether an entry is counted: directories count unless they are excluded,
/// or unless `Auto` is chosen and apparent sizes are counted (as `du` does).
pub open spec fn counts(directories: Directories, is_dir: bool, count_type: CountType) -> bool {
    match directories {
        Directories::Included => true,
        Directories::Excluded => !is_dir,
        Directories::Auto => !is_dir || count_type == CountType::DiskUsage,
    }
}

/// Decides whether an entry is counted.
pub fn should_count(directories: Directories, is_dir: bool, count_type: CountType) -> (b: bool)
    ensures
        b == counts(directories, is_dir, count_type),
        !is_dir ==> b,
        directories == Directories::Included ==> b,
        directories == Directories::Excluded ==> b == !is_dir,
        directories == Directories::Auto && is_dir ==> b == (count_type == CountType::DiskUsage),
{
    match directories {
        Directories::Included => true,
        Directories::Excluded => !is_dir,
        Directories::Auto => !is_dir || count_type == CountType::DiskUsage,
    }
}

/// What the metadata of a visited entry says.
#[derive(Debug, Clone, Copy)]
pub struct EntryMeta {
    /// The entry is a directory (symbolic links are not followed).
    pub is_dir: bool,
    /// Set for an inode with more than one hard link.
    pub unique_id: Option<UniqueId>,
    /// The entry's size of the kind being counted.
    pub size: u64,
}

/// What was found at a visited path.
#[derive(Debug)]
pub enum Probe {
    /// No metadata could be read for the path.
    NoMetadata(PathBuf),
    /// The path's metadata.
    Found(EntryMeta),
}

/// What a visited entry contributes, and whether its children are visited next.
#[derive(Debug)]
pub struct Visit {
    pub message: Option<Message>,
    pub descend: bool,
}

/// Decides what a visited entry contributes: an error if it has no
/// metadata; otherwise its size entry if it is counted, and a descent into
/// it if it is a directory.
pub fn visit(probe: Probe, count_type: CountType, directories: Directories) -> (v: Visit)
    ensures
        match probe {
            Probe::NoMetadata(path) => {
                &&& v.message == Some(Message::Error { error: Error::NoMetadataForPath(path) })
                &&& !v.descend
            },
            Probe::Found(meta) => {
                &&& v.descend == meta.is_dir
                &&& v.message == if counts(directories, meta.is_dir, count_type) {
                    Some(Message::SizeEntry(meta.unique_id, meta.size))
                } else {
                    None
                }
            },
        },
{
    match probe {
        Probe::NoMetadata(path) => Visit {
            message: Some(Message::Error { error: Error::NoMetadataForPath(path) }),
            descend: false,
        },
        Probe::Found(meta) => {
            let message = if should_count(directories, meta.is_dir, count_type) {
                Some(Message::SizeEntry(meta.unique_id, meta.size))
            } else {
                None
            };
            Visit { message, descend: meta.is_dir }
        },
    }
}

/// What reading a directory gave.
#[derive(Debug)]
pub enum Listing {
    /// The directory's children, in the order read.
    Read(Vec<PathBuf>),
    /// The directory at this path could not be read.
    Unreadable(PathBuf),
}

/// Decides what follows reading a directory: its children are visited next;
/// a directory that cannot be read has no children to visit and reports an
/// error.
pub fn children_of(listing: Listing) -> (r: (Vec<PathBuf>, Option<Message>))
    ensures
        match listing {
            Listing::Read(children) => r.0@ == children@ && r.1 == None::<Message>,
            Listing::Unreadable(path) => {
                &&& r.0@ == Seq::<PathBuf>::empty()
                &&& r.1 == Some(Message::Error { error: Error::CouldNotReadDir(path) })
            },
        },
{
    match listing {
        Listing::Read(children) => (children, None),
        Listing::Unreadable(path) => (Vec::new(), Some(Message::Error { error: Error::CouldNotReadDir(path) })),
    }
}

impl Message {
    /// This message, as reported below the direct child number `index`.
    pub fn for_entry(self, index: usize) -> (m: EntryMessage)
        ensures
            entry_index(m) == index,
            without_index(m) == self,
    {
        match self {
            Message::SizeEntry(unique_id, size) => EntryMessage::SizeEntry { index, unique_id, size },
            Message::Error { error } => EntryMessage::Error { index, error },
        }
    }
}

impl EntryMessage {
    /// The direct child that this message belongs to.
    pub fn index(&self) -> (i: usize)
        ensures
            i == entry_index(*self),
    {
        match self {
            EntryMessage::SizeEntry { index, .. } => *index,
            EntryMessage::Error { index, .. } => *index,
        }
    }
}

// ---------------------------------------------------------------------------
// Configuring a count.

/// The number of workers used when none is set: three per available core,
/// with at most 64 cores taken into account.
pub open spec fn default_workers(available_parallelism: Option<usize>) -> int {
    let cores: int = match available_parallelism {
        Some(n) => n as int,
        None => 1,
    };
    3 * if cores < 64 { cores } else { 64 }
}

/// Returns the default number of workers (3 × number of CPU cores, for at
/// most 64 cores), given the parallelism that the machine offers, if known.
///
/// This is a good tradeoff between cold-cache and warm-cache performance.
/// For cold disk caches, more threads help the IO scheduler plan ahead.
/// For warm caches, too many threads add synchronization overhead.
pub fn default_num_workers(available_parallelism: Option<usize>) -> (n: usize)
    ensures
        n == default_workers(available_parallelism),
        n <= 192,
        available_parallelism != Some(0usize) ==> n >= 3,
{
    let cores = match available_parallelism {
        Some(n) => n,
        None => 1,
    };
    3 * if cores < 64 { cores } else { 64 }
}

/// Configure a disk usage count: which roots, how many workers, what size
/// is counted and whether directories count.
#[derive(Debug)]
pub struct DiskUsage {
    root_directories: Vec<PathBuf>,
    num_workers: Option<usize>,
    count_type: CountType,
    directories: Directories,
}

impl DiskUsage {
    /// The root paths, in order.
    pub closed spec fn roots(&self) -> Seq<PathBuf> {
        self.root_directories@
    }

    /// The number of workers set, if any.
    pub closed spec fn workers(&self) -> Option<usize> {
        self.num_workers
    }

    /// The kind of size counted.
    pub closed spec fn counted(&self) -> CountType {
        self.count_type
    }

    /// Whether directories count.
    pub closed spec fn directory_mode(&self) -> Directories {
        self.directories
    }

    /// Create a new DiskUsage builder for the given root directories.
    pub fn new(root_directories: Vec<PathBuf>) -> (d: DiskUsage)
        ensures
            d.roots() == root_directories@,
            d.workers() == None::<usize>,
            d.counted() == CountType::DiskUsage,
            d.directory_mode() == Directories::Auto,
    {
        DiskUsage {
            root_directories,
            num_workers: None,
            count_type: CountType::default(),
            directories: Directories::default(),
        }
    }

    /// Set the number of workers to use for parallel traversal.
    ///
    /// By default, this is set to three times the number of CPU cores, which
    /// results in a good performance tradeoff for both cold and warm disk caches.
    pub fn num_workers(self, num_workers: usize) -> (d: DiskUsage)
        ensures
            d.roots() == self.roots(),
            d.workers() == Some(num_workers),
            d.counted() == self.counted(),
            d.directory_mode() == self.directory_mode(),
    {
        DiskUsage { num_workers: Some(num_workers), ..self }
    }

    /// Specify the type of the count (disk usage or apparent size).
    pub fn count_type(self, count_type: CountType) -> (d: DiskUsage)
        ensures
            d.roots() == self.roots(),
            d.workers() == self.workers(),
            d.counted() == count_type,
            d.directory_mode() == self.directory_mode(),
    {
        DiskUsage { count_type, ..self }
    }

    /// Configure the count to use apparent size instead of disk usage.
    pub fn apparent_size(self) -> (d: DiskUsage)
        ensures
            d.roots() == self.roots(),
            d.workers() == self.workers(),
            d.counted() == CountType::ApparentSize,
            d.directory_mode() == self.directory_mode(),
    {
        DiskUsage { count_type: CountType::ApparentSize, ..self }
    }

    /// Set whether to count directory sizes.
    pub fn directories(self, directories: Directories) -> (d: DiskUsage)
        ensures
            d.roots() == self.roots(),
            d.workers() == self.workers(),
            d.counted() == self.counted(),
            d.directory_mode() == directories,
    {
        DiskUsage { directories, ..self }
    }

    /// The root paths, in order.
    pub fn root_directories(&self) -> (r: &[PathBuf])
        ensures
            r@ == self.roots(),
    {
        self.root_directories.as_slice()
    }

    /// The kind of size counted.
    pub fn counted_type(&self) -> (c: CountType)
        ensures
            c == self.counted(),
    {
        self.count_type
    }

    /// Whether directories count.
    pub fn directories_mode(&self) -> (d: Directories)
        ensures
            d == self.directory_mode(),
    {
        self.directories
    }

    /// The number of workers to run: the one set, or else the default for
    /// the parallelism that the machine offers.
    pub fn worker_count(&self, available_parallelism: Option<usize>) -> (n: usize)
        ensures
            n == match self.workers() {
                Some(w) => w as int,
                None => default_workers(available_parallelism),
            },
    {
        match self.num_workers {
            Some(n) => n,
            None => default_num_workers(available_parallelism),
        }
    }
}

// ---------------------------------------------------------------------------
// Laws of counting.

/// A hard link whose inode was already counted adds nothing more.
pub proof fn lemma_hard_link_counted_once(msgs: Seq<Message>, id: UniqueId, size: u64)
    requires
        seen_ids(msgs).contains(id),
    ensures
        total_of(msgs.push(Message::SizeEntry(Some(id), size))) == total_of(msgs),
{
    assert(msgs.push(Message::SizeEntry(Some(id), size)).drop_last() =~= msgs);
}

/// An entry without an id, or with an id not seen before, adds its size.
pub proof fn lemma_new_entry_adds_size(msgs: Seq<Message>, unique_id: Option<UniqueId>, size: u64)
    requires
        unique_id matches Some(id) ==> !seen_ids(msgs).contains(id),
    ensures
        total_of(msgs.push(Message::SizeEntry(unique_id, size))) == total_of(msgs) + size,
{
    assert(msgs.push(Message::SizeEntry(unique_id, size)).drop_last() =~= msgs);
}

/// Errors change no total, and are kept in the order in which they arrive.
pub proof fn lemma_error_keeps_total(msgs: Seq<Message>, error: Error)
    ensures
        total_of(msgs.push(Message::Error { error })) == total_of(msgs),
        errors_of(msgs.push(Message::Error { error })) == errors_of(msgs).push(error),
{
    assert(msgs.push(Message::Error { error }).drop_last() =~= msgs);
}

/// The sum of all sizes reported, with repetitions.
pub open spec fn reported_sum(msgs: Seq<Message>) -> int
    decreases msgs.len(),
{
    if msgs.len() == 0 {
        0
    } else {
        reported_sum(msgs.drop_last()) + match msgs.last() {
            Message::SizeEntry(_, size) => size as int,
            Message::Error { .. } => 0,
        }
    }
}

/// The total never exceeds the sum of all sizes reported.
pub proof fn lemma_total_bounded_by_reported_sum(msgs: Seq<Message>)
    ensures
        0 <= total_of(msgs) <= reported_sum(msgs),
    decreases msgs.len(),
{
    if msgs.len() > 0 {
        lemma_total_bounded_by_reported_sum(msgs.drop_last());
    }
}

/// Messages of one direct child never change what another child adds up to.
pub proof fn lemma_children_independent(msgs: Seq<EntryMessage>, m: EntryMessage, i: int)
    requires
        entry_index(m) != i,
    ensures
        total_of(messages_for(msgs.push(m), i)) == total_of(messages_for(msgs, i)),
        errors_of(messages_for(msgs.push(m), i)) == errors_of(messages_for(msgs, i)),
{
    lemma_messages_for_push(msgs, m, i);
}

/// A hard link counted below one direct child still counts in full below
/// another child that has not seen its inode.
pub proof fn lemma_shared_link_counts_in_each_child(
    msgs: Seq<EntryMessage>,
    index: usize,
    id: UniqueId,
    size: u64,
)
    requires
        !seen_ids(messages_for(msgs, index as int)).contains(id),
    ensures
        total_of(messages_for(msgs.push(EntryMessage::SizeEntry { index, unique_id: Some(id), size }), index as int))
            == total_of(messages_for(msgs, index as int)) + size,
{
    let m = EntryMessage::SizeEntry { index, unique_id: Some(id), size };
    lemma_messages_for_push(msgs, m, index as int);
    lemma_new_entry_adds_size(messages_for(msgs, index as int), Some(id), size);
}


/// The id that a message carries, if it is a size entry with one.
pub open spec fn id_of(m: Message) -> Option<UniqueId> {
    match m {
        Message::SizeEntry(id, _) => id,
        Message::Error { .. } => None,
    }
}

/// The size that a message reports (0 for an error).
pub open spec fn size_of(m: Message) -> u64 {
    match m {
        Message::SizeEntry(_, size) => size,
        Message::Error { .. } => 0,
    }
}

/// Every size entry of an id reports the same size (as the hard links of
/// one inode do).
pub open spec fn consistent_sizes(msgs: Seq<Message>) -> bool {
    forall|i: int, j: int|
        0 <= i < msgs.len() && 0 <= j < msgs.len() && id_of(#[trigger] msgs[i]) is Some && id_of(msgs[i])
            == id_of(#[trigger] msgs[j]) ==> size_of(msgs[i]) == size_of(msgs[j])
}

/// Two streams that agree on the total and on the ids seen keep agreeing
/// when the same messages follow.
proof fn lemma_same_suffix(x: Seq<Message>, y: Seq<Message>, z: Seq<Message>)
    requires
        total_of(x) == total_of(y),
        seen_ids(x) == seen_ids(y),
    ensures
        total_of(x + z) == total_of(y + z),
        seen_ids(x + z) == seen_ids(y + z),
    decreases z.len(),
{
    if z.len() == 0 {
        assert(x + z =~= x);
        assert(y + z =~= y);
    } else {
        lemma_same_suffix(x, y, z.drop_last());
        assert((x + z).drop_last() =~= x + z.drop_last());
        assert((y + z).drop_last() =~= y + z.drop_last());
        assert((x + z).last() == z.last());
        assert((y + z).last() == z.last());
    }
}

/// The stream `msgs` with its messages `i` and `i + 1` exchanged.
pub open spec fn swap_adjacent(msgs: Seq<Message>, i: int) -> Seq<Message> {
    msgs.update(i, msgs[i + 1]).update(i + 1, msgs[i])
}

/// Reordering two neighbouring messages never changes the total, as long as
/// the hard links of an inode report the same size: the total does not
/// depend on the order in which the workers of a traversal report.
pub proof fn lemma_total_independent_of_order(msgs: Seq<Message>, i: int)
    requires
        0 <= i,
        i + 1 < msgs.len(),
        consistent_sizes(msgs),
    ensures
        total_of(swap_adjacent(msgs, i)) == total_of(msgs),
        seen_ids(swap_adjacent(msgs, i)) == seen_ids(msgs),
        errors_of(swap_adjacent(msgs, i)).to_multiset() == errors_of(msgs).to_multiset(),
{
    let p = msgs.take(i);
    let a = msgs[i];
    let b = msgs[i + 1];
    let z = msgs.skip(i + 2);
    let swapped = swap_adjacent(msgs, i);
    assert(msgs =~= p.push(a).push(b) + z);
    assert(swapped =~= p.push(b).push(a) + z);
    let x = p.push(a).push(b);
    let y = p.push(b).push(a);
    assert(x.drop_last() =~= p.push(a));
    assert(y.drop_last() =~= p.push(b));
    assert(p.push(a).drop_last() =~= p);
    assert(p.push(b).drop_last() =~= p);
    assert(id_of(msgs[i]) is Some && id_of(msgs[i]) == id_of(msgs[i + 1]) ==> size_of(msgs[i]) == size_of(msgs[i + 1]));
    let sp = seen_ids(p);
    assert(seen_ids(p.push(a)) == match a {
        Message::SizeEntry(Some(id), _) => sp.insert(id),
        _ => sp,
    });
    assert(seen_ids(p.push(b)) == match b {
        Message::SizeEntry(Some(id), _) => sp.insert(id),
        _ => sp,
    });
    assert(seen_ids(x) =~= seen_ids(y));
    assert(total_of(p.push(a)) == total_of(p) + contribution(p.push(a)));
    assert(total_of(p.push(b)) == total_of(p) + contribution(p.push(b)));
    assert(total_of(x) == total_of(p.push(a)) + contribution(x));
    assert(total_of(y) == total_of(p.push(b)) + contribution(y));
    assert(total_of(x) == total_of(y));
    lemma_same_suffix(x, y, z);
    lemma_errors_of_concat(p, seq![a, b]);
    lemma_errors_of_concat(p, seq![b, a]);
    assert(x =~= p + seq![a, b]);
    assert(y =~= p + seq![b, a]);
    assert(seq![a, b].drop_last() =~= seq![a]);
    assert(seq![b, a].drop_last() =~= seq![b]);
    assert(seq![a].drop_last() =~= Seq::<Message>::empty());
    assert(seq![b].drop_last() =~= Seq::<Message>::empty());
    let ea = errors_of(seq![a]);
    let eb = errors_of(seq![b]);
    lemma_errors_of_concat(seq![a], seq![b]);
    lemma_errors_of_concat(seq![b], seq![a]);
    assert(seq![a] + seq![b] =~= seq![a, b]);
    assert(seq![b] + seq![a] =~= seq![b, a]);
    vstd::seq_lib::lemma_multiset_commutative(ea, eb);
    vstd::seq_lib::lemma_multiset_commutative(eb, ea);
    let eab = errors_of(seq![a, b]);
    let eba = errors_of(seq![b, a]);
    assert(eab.to_multiset() =~= eba.to_multiset());
    vstd::seq_lib::lemma_multiset_commutative(errors_of(p), eab);
    vstd::seq_lib::lemma_multiset_commutative(errors_of(p), eba);
    assert(errors_of(x).to_multiset() =~= errors_of(y).to_multiset());
    lemma_errors_multiset_suffix(x, y, z);
}


/// The errors of two streams in a row are those of the first, then those of
/// the second.
proof fn lemma_errors_of_concat(x: Seq<Message>, z: Seq<Message>)
    ensures
        errors_of(x + z) == errors_of(x) + errors_of(z),
    decreases z.len(),
{
    if z.len() == 0 {
        assert(x + z =~= x);
        assert(errors_of(x) + errors_of(z) =~= errors_of(x));
    } else {
        lemma_errors_of_concat(x, z.drop_last());
        assert((x + z).drop_last() =~= x + z.drop_last());
        assert((x + z).last() == z.last());
        let prev = errors_of(x) + errors_of(z.drop_last());
        match z.last() {
            Message::Error { error } => {
                assert(prev.push(error) =~= errors_of(x) + errors_of(z.drop_last()).push(error));
            },
            _ => {},
        }
    }
}

/// Two streams whose errors agree as multisets keep agreeing when the same
/// messages follow.
proof fn lemma_errors_multiset_suffix(x: Seq<Message>, y: Seq<Message>, z: Seq<Message>)
    requires
        errors_of(x).to_multiset() == errors_of(y).to_multiset(),
    ensures
        errors_of(x + z).to_multiset() == errors_of(y + z).to_multiset(),
{
    lemma_errors_of_concat(x, z);
    lemma_errors_of_concat(y, z);
    vstd::seq_lib::lemma_multiset_commutative(errors_of(x), errors_of(z));
    vstd::seq_lib::lemma_multiset_commutative(errors_of(y), errors_of(z));
}

/// Exchanging two neighbouring messages keeps the sizes consistent.
proof fn lemma_consistent_after_swap(msgs: Seq<Message>, i: int)
    requires
        0 <= i,
        i + 1 < msgs.len(),
        consistent_sizes(msgs),
    ensures
        consistent_sizes(swap_adjacent(msgs, i)),
{
    let t = swap_adjacent(msgs, i);
    assert forall|j: int, k: int|
        0 <= j < t.len() && 0 <= k < t.len() && id_of(#[trigger] t[j]) is Some && id_of(t[j])
            == id_of(#[trigger] t[k]) implies size_of(t[j]) == size_of(t[k]) by {
        let jj = if j == i { i + 1 } else if j == i + 1 { i } else { j };
        let kk = if k == i { i + 1 } else if k == i + 1 { i } else { k };
        assert(t[j] == msgs[jj]);
        assert(t[k] == msgs[kk]);
    }
}

/// Leaving out a message keeps the sizes consistent.
proof fn lemma_consistent_after_remove(msgs: Seq<Message>, r: int)
    requires
        0 <= r < msgs.len(),
        consistent_sizes(msgs),
    ensures
        consistent_sizes(msgs.remove(r)),
{
    let t = msgs.remove(r);
    assert forall|j: int, k: int|
        0 <= j < t.len() && 0 <= k < t.len() && id_of(#[trigger] t[j]) is Some && id_of(t[j])
            == id_of(#[trigger] t[k]) implies size_of(t[j]) == size_of(t[k]) by {
        let jj = if j < r { j } else { j + 1 };
        let kk = if k < r { k } else { k + 1 };
        assert(t[j] == msgs[jj]);
        assert(t[k] == msgs[kk]);
    }
}

/// Moving one message to the end changes neither the total, the ids seen,
/// nor the multiset of errors.
proof fn lemma_move_to_end(s: Seq<Message>, k: int)
    requires
        0 <= k < s.len(),
        consistent_sizes(s),
    ensures
        total_of(s.remove(k).push(s[k])) == total_of(s),
        seen_ids(s.remove(k).push(s[k])) == seen_ids(s),
        errors_of(s.remove(k).push(s[k])).to_multiset() == errors_of(s).to_multiset(),
    decreases s.len() - k,
{
    if k == s.len() - 1 {
        assert(s.remove(k).push(s[k]) =~= s);
    } else {
        let t = swap_adjacent(s, k);
        lemma_total_independent_of_order(s, k);
        lemma_consistent_after_swap(s, k);
        lemma_move_to_end(t, k + 1);
        assert(t.remove(k + 1) =~= s.remove(k));
        assert(t[k + 1] == s[k]);
    }
}

/// The total of a traversal, the inodes it saw and the errors it met (up to
/// their order) do not depend on the order in which its messages arrive, as
/// long as the hard links of an inode report the same size: however the
/// workers are scheduled, and however many there are, a count gives the same
/// result.
pub proof fn lemma_tally_order_independent(a: Seq<Message>, b: Seq<Message>)
    requires
        a.to_multiset() == b.to_multiset(),
        consistent_sizes(a),
    ensures
        total_of(a) == total_of(b),
        seen_ids(a) == seen_ids(b),
        errors_of(a).to_multiset() == errors_of(b).to_multiset(),
    decreases a.len(),
{
    broadcast use vstd::multiset::group_multiset_axioms;

    a.to_multiset_ensures();
    b.to_multiset_ensures();
    if a.len() == 0 {
        assert(a =~= b);
    } else {
        let m = b.last();
        let bd = b.drop_last();
        assert(b =~= bd.push(m));
        bd.to_multiset_ensures();
        assert(b.contains(m)) by {
            assert(b[b.len() - 1] == m);
        }
        assert(b.to_multiset().count(m) > 0);
        assert(a.to_multiset().count(m) > 0);
        assert(a.contains(m));
        let k = choose|k: int| 0 <= k < a.len() && a[k] == m;
        let ar = a.remove(k);
        assert(ar.to_multiset() =~= a.to_multiset().remove(m));
        assert(bd.to_multiset() =~= b.to_multiset().remove(m));
        lemma_consistent_after_remove(a, k);
        lemma_tally_order_independent(ar, bd);
        lemma_move_to_end(a, k);
        lemma_same_suffix(ar, bd, seq![m]);
        lemma_errors_multiset_suffix(ar, bd, seq![m]);
        assert(ar + seq![m] =~= ar.push(m));
        assert(bd + seq![m] =~= b);
    }
}

/// The messages of child `i` in two streams in a row are those of the
/// first, then those of the second.
proof fn lemma_messages_for_concat(x: Seq<EntryMessage>, z: Seq<EntryMessage>, i: int)
    ensures
        messages_for(x + z, i) == messages_for(x, i) + messages_for(z, i),
    decreases z.len(),
{
    if z.len() == 0 {
        assert(x + z =~= x);
        assert(messages_for(x, i) + messages_for(z, i) =~= messages_for(x, i));
    } else {
        lemma_messages_for_concat(x, z.drop_last(), i);
        assert((x + z).drop_last() =~= x + z.drop_last());
        assert((x + z).last() == z.last());
        if entry_index(z.last()) == i {
            assert((messages_for(x, i) + messages_for(z.drop_last(), i)).push(without_index(z.last()))
                =~= messages_for(x, i) + messages_for(z.drop_last(), i).push(without_index(z.last())));
        }
    }
}

/// Reordering the messages of a traversal of direct children reorders the
/// messages of each child, and keeps the same ones.
proof fn lemma_messages_for_reordered(a: Seq<EntryMessage>, b: Seq<EntryMessage>, i: int)
    requires
        a.to_multiset() == b.to_multiset(),
    ensures
        messages_for(a, i).to_multiset() == messages_for(b, i).to_multiset(),
    decreases a.len(),
{
    broadcast use vstd::multiset::group_multiset_axioms;

    a.to_multiset_ensures();
    b.to_multiset_ensures();
    if a.len() == 0 {
        assert(a =~= b);
    } else {
        let m = b.last();
        let bd = b.drop_last();
        assert(b =~= bd.push(m));
        bd.to_multiset_ensures();
        assert(b.contains(m)) by {
            assert(b[b.len() - 1] == m);
        }
        assert(b.to_multiset().count(m) > 0);
        assert(a.to_multiset().count(m) > 0);
        assert(a.contains(m));
        let k = choose|k: int| 0 <= k < a.len() && a[k] == m;
        let ar = a.remove(k);
        assert(ar.to_multiset() =~= a.to_multiset().remove(m));
        assert(bd.to_multiset() =~= b.to_multiset().remove(m));
        lemma_messages_for_reordered(ar, bd, i);
        let front = a.take(k);
        let back = a.skip(k + 1);
        assert(a =~= front + seq![m] + back);
        assert(ar =~= front + back);
        lemma_messages_for_concat(front, seq![m], i);
        lemma_messages_for_concat(front + seq![m], back, i);
        lemma_messages_for_concat(front, back, i);
        lemma_messages_for_concat(bd, seq![m], i);
        assert(bd + seq![m] =~= b);
        let mf = messages_for(front, i);
        let mm = messages_for(seq![m], i);
        let mb = messages_for(back, i);
        vstd::seq_lib::lemma_multiset_commutative(mf, mm);
        vstd::seq_lib::lemma_multiset_commutative(mf + mm, mb);
        vstd::seq_lib::lemma_multiset_commutative(mf, mb);
        vstd::seq_lib::lemma_multiset_commutative(messages_for(bd, i), mm);
        assert(messages_for(a, i).to_multiset() =~= messages_for(ar, i).to_multiset().add(mm.to_multiset()));
    }
}

/// For each direct child, the total, the inodes seen and the errors met (up
/// to their order) do not depend on the order in which the messages of the
/// traversal arrive, as long as the hard links of an inode report the same
/// size within that child.
pub proof fn lemma_child_order_independent(a: Seq<EntryMessage>, b: Seq<EntryMessage>, i: int)
    requires
        a.to_multiset() == b.to_multiset(),
        consistent_sizes(messages_for(a, i)),
    ensures
        total_of(messages_for(a, i)) == total_of(messages_for(b, i)),
        seen_ids(messages_for(a, i)) == seen_ids(messages_for(b, i)),
        errors_of(messages_for(a, i)).to_multiset() == errors_of(messages_for(b, i)).to_multiset(),
{
    lemma_messages_for_reordered(a, b, i);
    lemma_tally_order_independent(messages_for(a, i), messages_for(b, i));
}


/// What one probe contributes on its own: a root that is not a directory is
/// its own entry, a readable directory contributes its children, and a root
/// without metadata or that cannot be read contributes only its error.
pub proof fn lemma_single_probe(p: RootProbe)
    ensures
        probe_paths(seq![p]) == own_entries(p),
        probe_errors(seq![p]) == match p {
            RootProbe::Missing(root) => seq![Error::NoMetadataForPath(root)],
            RootProbe::Unreadable(root) => seq![Error::CouldNotReadDir(root)],
            _ => Seq::<Error>::empty(),
        },
{
    assert(seq![p].drop_last() =~= Seq::<RootProbe>::empty());
    assert(seq![p].last() == p);
    assert(probe_paths(Seq::<RootProbe>::empty()) == Seq::<PathBuf>::empty());
    assert(probe_errors(Seq::<RootProbe>::empty()) == Seq::<Error>::empty());
    match p {
        RootProbe::Directory(children) => {
            assert(Seq::<PathBuf>::empty() + children@ =~= children@);
        },
        RootProbe::NotDirectory(root) => {
            assert(Seq::<PathBuf>::empty().push(root) =~= seq![root]);
        },
        RootProbe::Missing(root) => {
            assert(Seq::<Error>::empty().push(Error::NoMetadataForPath(root)) =~= seq![Error::NoMetadataForPath(root)]);
        },
        RootProbe::Unreadable(root) => {
            assert(Seq::<Error>::empty().push(Error::CouldNotReadDir(root)) =~= seq![Error::CouldNotReadDir(root)]);
        },
    }
}

/// The entries and errors of the probes of several roots are those of each
/// root, one root after the other: no root's entries are dropped or
/// reordered.
pub proof fn lemma_probes_concat(a: Seq<RootProbe>, b: Seq<RootProbe>)
    ensures
        probe_paths(a + b) == probe_paths(a) + probe_paths(b),
        probe_errors(a + b) == probe_errors(a) + probe_errors(b),
    decreases b.len(),
{
    if b.len() == 0 {
        assert(a + b =~= a);
        assert(probe_paths(a) + probe_paths(b) =~= probe_paths(a));
        assert(probe_errors(a) + probe_errors(b) =~= probe_errors(a));
    } else {
        lemma_probes_concat(a, b.drop_last());
        assert((a + b).drop_last() =~= a + b.drop_last());
        assert((a + b).last() == b.last());
        let pa = probe_paths(a);
        let pb = probe_paths(b.drop_last());
        let ea = probe_errors(a);
        let eb = probe_errors(b.drop_last());
        match b.last() {
            RootProbe::NotDirectory(root) => {
                assert((pa + pb).push(root) =~= pa + pb.push(root));
            },
            RootProbe::Directory(children) => {
                assert((pa + pb) + children@ =~= pa + (pb + children@));
            },
            RootProbe::Missing(root) => {
                assert((ea + eb).push(Error::NoMetadataForPath(root)) =~= ea + eb.push(Error::NoMetadataForPath(root)));
            },
            RootProbe::Unreadable(root) => {
                assert((ea + eb).push(Error::CouldNotReadDir(root)) =~= ea + eb.push(Error::CouldNotReadDir(root)));
            },
        }
    }
}

/// Every child of every readable root directory, and every root that is not
/// a directory, is among the entries gathered, after the entries of the
/// roots before it.
pub proof fn lemma_every_entry_listed(probes: Seq<RootProbe>, i: int)
    requires
        0 <= i < probes.len(),
    ensures
        forall|j: int|
            0 <= j < own_entries(probes[i]).len() ==> probe_paths(probes).contains(
                #[trigger] own_entries(probes[i])[j],
            ),
        forall|j: int|
            0 <= j < own_entries(probes[i]).len() ==> probe_paths(probes)[probe_paths(probes.take(i)).len() + j]
                == #[trigger] own_entries(probes[i])[j],
{
    let front = probes.take(i);
    let back = probes.skip(i + 1);
    assert(probes =~= front + seq![probes[i]] + back);
    lemma_probes_concat(front + seq![probes[i]], back);
    lemma_probes_concat(front, seq![probes[i]]);
    lemma_single_probe(probes[i]);
    let all = probe_paths(probes);
    let before = probe_paths(front);
    let own = own_entries(probes[i]);
    assert(all == before + own + probe_paths(back));
    assert forall|j: int| 0 <= j < own.len() implies all.contains(#[trigger] own[j]) by {
        assert(all[before.len() + j] == own[j]);
    }
}

/// Which entries count: a file counts in every mode; `Included` counts every
/// entry; `Excluded` counts no directory; `Auto` counts directories exactly
/// when disk usage (not apparent size) is counted.
pub proof fn lemma_what_counts(directories: Directories, is_dir: bool, count_type: CountType)
    ensures
        !is_dir ==> counts(directories, is_dir, count_type),
        directories == Directories::Included ==> counts(directories, is_dir, count_type),
        directories == Directories::Excluded && is_dir ==> !counts(directories, is_dir, count_type),
        directories == Directories::Auto && is_dir ==> (counts(directories, is_dir, count_type)
            <==> count_type == CountType::DiskUsage),
{
}

} // verus!
