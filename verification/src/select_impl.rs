//! The multiplex set and the invocation protocol around the readiness
//! primitive: transcript construction, timeout encoding, and the scatter of
//! observed readiness back into the set.

use vstd::prelude::*;
use crate::error::Error;
use crate::io_handle::InOutHandle;

verus! {

/// An event matrix defining the possible file descriptor events
#[derive(Debug, Clone, Copy, PartialEq, Eq, Structural, PartialOrd, Ord, Hash)]
pub struct Events {
    /// A flag for the `read`-event
    pub read: bool,
    /// A flag for the `write`-event
    pub write: bool,
    /// A flag for an exceptional event
    pub exception: bool,
}

impl Events {
    /// True iff at least one of the three event flags is set.
    pub open spec fn has_event_spec(&self) -> bool {
        self.read || self.write || self.exception
    }

    /// Tests whether one or more of the event flags is set to `true`
    pub fn has_event(&self) -> (r: bool)
        ensures
            r == self.has_event_spec(),
    {
        self.read || self.write || self.exception
    }
}

impl Default for Events {
    /// All flags false.
    fn default() -> (r: Self)
        ensures
            r == (Events { read: false, write: false, exception: false }),
    {
        Events { read: false, write: false, exception: false }
    }
}

/// One record of the flat transcript handed to the readiness primitive:
/// the descriptor, then one byte per event flag (nonzero means set).
#[derive(Debug, Clone, Copy, PartialEq, Eq, Structural)]
#[allow(non_camel_case_types)]
pub struct libselect_fd {
    /// The file descriptor handle to operate on
    pub handle: u64,
    /// A flag for the `read`-event
    pub read: u8,
    /// A flag for the `write`-event
    pub write: u8,
    /// A flag for an exceptional event
    pub exception: u8,
}

/// The byte encoding of one event flag: `1` for set, `0` for clear.
pub open spec fn flag_of(b: bool) -> u8 {
    if b {
        1
    } else {
        0
    }
}

/// The event flags a transcript record reports: a byte is set iff nonzero.
pub open spec fn record_events(r: libselect_fd) -> Events {
    Events { read: r.read > 0, write: r.write > 0, exception: r.exception > 0 }
}

/// The transcript record requesting `events` for descriptor `fd`.
pub open spec fn record_of(fd: u64, events: Events) -> libselect_fd {
    libselect_fd {
        handle: fd,
        read: flag_of(events.read),
        write: flag_of(events.write),
        exception: flag_of(events.exception),
    }
}

/// The flag byte round-trips: a record built from any combination of the
/// three interest flags reports exactly that combination back, with no flag
/// dropped, inverted, or defaulted.
pub proof fn lemma_flags_round_trip(fd: u64, events: Events)
    ensures
        record_events(record_of(fd, events)) == events,
        record_of(fd, events).handle == fd,
{
}

/// Whether some entry of `s` carries the key `fd`.
pub open spec fn has_key(s: Seq<(u64, Events)>, fd: u64) -> bool {
    exists|i: int| 0 <= i < s.len() && (#[trigger] s[i]).0 == fd
}

/// Whether no two entries of `s` share a key.
pub open spec fn keys_unique(s: Seq<(u64, Events)>) -> bool {
    forall|i: int, j: int| 0 <= i < j < s.len() ==> (#[trigger] s[i]).0 != (#[trigger] s[j]).0
}

/// The keyed map a sequence of (descriptor, events) entries denotes; a later
/// entry overwrites an earlier one with the same descriptor.
pub open spec fn map_of_entries(s: Seq<(u64, Events)>) -> Map<u64, Events>
    decreases s.len(),
{
    if s.len() == 0 {
        Map::empty()
    } else {
        map_of_entries(s.drop_last()).insert(s.last().0, s.last().1)
    }
}

/// Unique keys survive dropping the last entry.
proof fn lemma_keys_unique_drop_last(s: Seq<(u64, Events)>)
    requires
        keys_unique(s),
        s.len() > 0,
    ensures
        keys_unique(s.drop_last()),
{
    assert(forall|a: int, b: int|
        0 <= a < b < s.drop_last().len() ==> (#[trigger] s.drop_last()[a]).0 != (
        #[trigger] s.drop_last()[b]).0);
}

/// The denoted map holds a key exactly when some entry carries it.
proof fn lemma_map_of_entries_dom(s: Seq<(u64, Events)>, fd: u64)
    ensures
        map_of_entries(s).dom().contains(fd) <==> has_key(s, fd),
    decreases s.len(),
{
    if s.len() == 0 {
    } else {
        lemma_map_of_entries_dom(s.drop_last(), fd);
        if s.last().0 == fd {
            assert((s[s.len() - 1]).0 == fd);
        } else if has_key(s, fd) {
            let i = choose|i: int| 0 <= i < s.len() && (#[trigger] s[i]).0 == fd;
            assert((s.drop_last()[i]).0 == fd);
        }
    }
}

/// Under unique keys, the denoted map sends each entry's key to its events.
proof fn lemma_map_of_entries_index(s: Seq<(u64, Events)>, i: int)
    requires
        keys_unique(s),
        0 <= i < s.len(),
    ensures
        map_of_entries(s).dom().contains(s[i].0),
        map_of_entries(s)[s[i].0] == s[i].1,
    decreases s.len(),
{
    if i == s.len() - 1 {
    } else {
        lemma_keys_unique_drop_last(s);
        lemma_map_of_entries_index(s.drop_last(), i);
        assert(s.last().0 != s[i].0);
    }
}

/// Under unique keys, overwriting the events of the entry at `i` denotes a
/// map insertion for that entry's key.
proof fn lemma_map_of_entries_update(s: Seq<(u64, Events)>, i: int, ev: Events)
    requires
        keys_unique(s),
        0 <= i < s.len(),
    ensures
        map_of_entries(s.update(i, (s[i].0, ev))) == map_of_entries(s).insert(s[i].0, ev),
    decreases s.len(),
{
    let fd = s[i].0;
    let t = s.update(i, (fd, ev));
    if i == s.len() - 1 {
        assert(t.drop_last() =~= s.drop_last());
        assert(t.last() == (fd, ev));
        assert(map_of_entries(s.drop_last()).insert(fd, s.last().1).insert(fd, ev)
            =~= map_of_entries(s.drop_last()).insert(fd, ev));
    } else {
        assert(t.drop_last() =~= s.drop_last().update(i, (s[i].0, ev)));
        lemma_keys_unique_drop_last(s);
        lemma_map_of_entries_update(s.drop_last(), i, ev);
        assert(t.last() == s.last());
        assert(s.last().0 != fd);
        assert(map_of_entries(s.drop_last()).insert(fd, ev).insert(s.last().0, s.last().1)
            =~= map_of_entries(s.drop_last()).insert(s.last().0, s.last().1).insert(fd, ev));
    }
}

/// Under unique keys, deleting the entry at `i` denotes a map removal of
/// that entry's key.
proof fn lemma_map_of_entries_remove(s: Seq<(u64, Events)>, i: int)
    requires
        keys_unique(s),
        0 <= i < s.len(),
    ensures
        map_of_entries(s.remove(i)) == map_of_entries(s).remove(s[i].0),
    decreases s.len(),
{
    let fd = s[i].0;
    if i == s.len() - 1 {
        assert(s.remove(i) =~= s.drop_last());
        lemma_map_of_entries_dom(s.drop_last(), fd);
        assert(!has_key(s.drop_last(), fd)) by {
            assert(forall|j: int|
                0 <= j < s.len() - 1 ==> (#[trigger] s[j]).0 != (s[s.len() - 1]).0);
        }
        assert(map_of_entries(s.drop_last()).insert(fd, s.last().1).remove(fd) =~= map_of_entries(
            s.drop_last(),
        ));
    } else {
        assert(s.remove(i).drop_last() =~= s.drop_last().remove(i));
        assert(s.remove(i).last() == s.last());
        lemma_keys_unique_drop_last(s);
        lemma_map_of_entries_remove(s.drop_last(), i);
        assert(s.last().0 != fd);
        assert(map_of_entries(s.drop_last()).remove(fd).insert(s.last().0, s.last().1)
            =~= map_of_entries(s.drop_last()).insert(s.last().0, s.last().1).remove(fd));
    }
}

/// Under unique keys, the denoted map has exactly one key per entry: its
/// domain is finite and of the same size as the entry count.
proof fn lemma_map_of_entries_len(s: Seq<(u64, Events)>)
    requires
        keys_unique(s),
    ensures
        map_of_entries(s).dom().finite(),
        map_of_entries(s).dom().len() == s.len(),
    decreases s.len(),
{
    if s.len() == 0 {
        assert(map_of_entries(s).dom() =~= Set::<u64>::empty());
    } else {
        lemma_keys_unique_drop_last(s);
        lemma_map_of_entries_len(s.drop_last());
        lemma_map_of_entries_dom(s.drop_last(), s.last().0);
        assert(!has_key(s.drop_last(), s.last().0)) by {
            assert(forall|j: int|
                0 <= j < s.len() - 1 ==> (#[trigger] s[j]).0 != (s[s.len() - 1]).0);
        }
        assert(map_of_entries(s).dom() =~= map_of_entries(s.drop_last()).dom().insert(s.last().0));
    }
}

/// Under unique keys, overwriting the entry at `i` with an entry of the
/// same key denotes a map insertion for that key.
pub broadcast proof fn lemma_map_of_entries_update_auto(s: Seq<(u64, Events)>, i: int, p: (
    u64,
    Events,
))
    requires
        keys_unique(s),
        0 <= i < s.len(),
        p.0 == s[i].0,
    ensures
        #[trigger] map_of_entries(s.update(i, p)) == map_of_entries(s).insert(p.0, p.1),
{
    lemma_map_of_entries_update(s, i, p.1);
    assert(s.update(i, p) == s.update(i, (s[i].0, p.1)));
}

/// Unique keys survive overwriting an entry with one of the same key.
pub broadcast proof fn lemma_keys_unique_update(s: Seq<(u64, Events)>, i: int, p: (u64, Events))
    requires
        keys_unique(s),
        0 <= i < s.len(),
        p.0 == s[i].0,
    ensures
        #[trigger] keys_unique(s.update(i, p)),
{
    let t = s.update(i, p);
    assert forall|a: int, b: int| 0 <= a < b < t.len() implies (#[trigger] t[a]).0 != (
    #[trigger] t[b]).0 by {
        assert((s[a]).0 != (s[b]).0);
    }
}

/// A select set: a keyed collection mapping each descriptor to the event
/// flags requested for it, and, after a completed invocation, to the event
/// flags observed on it.
#[derive(Debug, Clone)]
pub struct SelectSet {
    /// The file descriptors with their corresponding events
    fds: Vec<(u64, Events)>,
}

impl View for SelectSet {
    type V = Map<u64, Events>;

    closed spec fn view(&self) -> Map<u64, Events> {
        map_of_entries(self.fds@)
    }
}

impl SelectSet {
    /// The entries in the set's internal order, as serialized into a
    /// transcript; the order carries no meaning.
    pub closed spec fn entries(&self) -> Seq<(u64, Events)> {
        self.fds@
    }

    /// Well-formedness: at most one entry per distinct descriptor.
    pub open spec fn wf(&self) -> bool {
        keys_unique(self.entries())
    }

    /// Creates a new select set
    pub fn new() -> (r: Self)
        ensures
            r.wf(),
            r@ == Map::<u64, Events>::empty(),
            r.entries().len() == 0,
    {
        Self { fds: Vec::new() }
    }

    /// Finds the position of a descriptor among the entries.
    fn find_fd(&self, fd: u64) -> (r: Option<usize>)
        requires
            self.wf(),
        ensures
            match r {
                Some(i) => i < self.entries().len() && self.entries()[i as int].0 == fd,
                None => !self@.dom().contains(fd),
            },
    {
        proof {
            lemma_map_of_entries_dom(self.fds@, fd);
        }
        let n = self.fds.len();
        let mut i: usize = 0;
        while i < n
            invariant
                n == self.fds.len(),
                i <= n,
                forall|j: int| 0 <= j < i ==> (#[trigger] self.fds@[j]).0 != fd,
            decreases n - i,
        {
            if self.fds[i].0 == fd {
                return Some(i);
            }
            i += 1;
        }
        None
    }

    /// Stores `events` for the descriptor `fd`, overwriting any events
    /// previously stored for it: afterwards the set holds exactly one entry
    /// for `fd`, and the new events win.
    pub fn insert_fd(&mut self, fd: u64, events: Events)
        requires
            old(self).wf(),
        ensures
            final(self).wf(),
            final(self)@ == old(self)@.insert(fd, events),
            final(self).entries().len() <= old(self).entries().len() + 1,
    {
        let ghost s = self.fds@;
        match self.find_fd(fd) {
            Some(i) => {
                self.fds[i] = (fd, events);
                proof {
                    assert(self.fds@ == s.update(i as int, (s[i as int].0, events)));
                    lemma_map_of_entries_update(s, i as int, events);
                    assert forall|a: int, b: int|
                        0 <= a < b < self.fds@.len() implies (#[trigger] self.fds@[a]).0 != (
                    #[trigger] self.fds@[b]).0 by {
                        assert((s[a]).0 != (s[b]).0);
                    }
                }
            },
            None => {
                self.fds.push((fd, events));
                proof {
                    assert(self.fds@.drop_last() =~= s);
                    assert(self.fds@.last() == (fd, events));
                    lemma_map_of_entries_dom(s, fd);
                    assert forall|a: int, b: int|
                        0 <= a < b < self.fds@.len() implies (#[trigger] self.fds@[a]).0 != (
                    #[trigger] self.fds@[b]).0 by {
                        if b < s.len() {
                            assert((s[a]).0 != (s[b]).0);
                        } else {
                            assert(has_key(s, fd) ==> false);
                            assert((s[a]).0 == (self.fds@[a]).0);
                        }
                    }
                }
            },
        }
    }

    /// Deletes any entry stored for the descriptor `fd`; doing nothing when
    /// none is stored.
    pub fn remove_fd(&mut self, fd: u64)
        requires
            old(self).wf(),
        ensures
            final(self).wf(),
            final(self)@ == old(self)@.remove(fd),
    {
        let ghost s = self.fds@;
        match self.find_fd(fd) {
            Some(i) => {
                self.fds.remove(i);
                proof {
                    lemma_map_of_entries_remove(s, i as int);
                    assert forall|a: int, b: int|
                        0 <= a < b < self.fds@.len() implies (#[trigger] self.fds@[a]).0 != (
                    #[trigger] self.fds@[b]).0 by {
                        if a < i as int {
                            assert(self.fds@[a] == s[a]);
                        } else {
                            assert(self.fds@[a] == s[a + 1]);
                        }
                        if b < i as int {
                            assert(self.fds@[b] == s[b]);
                        } else {
                            assert(self.fds@[b] == s[b + 1]);
                        }
                    }
                }
            },
            None => {
                proof {
                    assert(old(self)@.remove(fd) =~= old(self)@);
                }
            },
        }
    }

    /// Looks up the events currently stored for the descriptor `fd`.
    pub fn get_fd(&self, fd: u64) -> (r: Option<&Events>)
        requires
            self.wf(),
        ensures
            match r {
                Some(ev) => self@.dom().contains(fd) && *ev == self@[fd],
                None => !self@.dom().contains(fd),
            },
    {
        match self.find_fd(fd) {
            Some(i) => {
                proof {
                    lemma_map_of_entries_index(self.fds@, i as int);
                }
                Some(&self.fds[i].1)
            },
            None => None,
        }
    }

    /// Looks up the events stored for the descriptor `fd` with mutable
    /// access, so that a caller can write observed results back in place.
    pub fn get_mut_fd(&mut self, fd: u64) -> (r: Option<&mut Events>)
        requires
            old(self).wf(),
        ensures
            final(self).wf(),
            match r {
                Some(ev) => old(self)@.dom().contains(fd) && *ev == old(self)@[fd] && final(self)@
                    == old(self)@.insert(fd, *final(ev)),
                None => !old(self)@.dom().contains(fd) && final(self)@ == old(self)@,
            },
    {
        proof {
            broadcast use lemma_map_of_entries_update_auto;
            broadcast use lemma_keys_unique_update;
        }
        match self.find_fd(fd) {
            Some(i) => {
                proof {
                    lemma_map_of_entries_index(self.fds@, i as int);
                }
                Some(&mut self.fds[i].1)
            },
            None => None,
        }
    }

    /// Adds a file descriptor for a given event to select set.
    ///
    /// The descriptor is whatever the handle's own resolution returned: on
    /// its success the set maps that descriptor to `events` (overwriting any
    /// previous entry), on its failure the error is passed through and the
    /// set is unchanged.
    pub fn insert<T: InOutHandle>(&mut self, handle: &T, events: Events) -> (r:
        core::result::Result<(), Error>)
        requires
            old(self).wf(),
        ensures
            final(self).wf(),
            match r {
                Ok(()) => exists|fd: u64| final(self)@ == old(self)@.insert(fd, events),
                Err(_) => final(self)@ == old(self)@,
            },
    {
        let fd = match handle.get_raw_fd() {
            Ok(fd) => fd,
            Err(e) => {
                return Err(e);
            },
        };
        self.insert_fd(fd, events);
        Ok(())
    }

    /// Removes a file descriptor for a given event to select set.
    ///
    /// On a resolved descriptor its entry, if any, is deleted; a descriptor
    /// with no entry is no error. A failed resolution is passed through and
    /// leaves the set unchanged.
    pub fn remove<T: InOutHandle>(&mut self, handle: &T) -> (r: core::result::Result<(), Error>)
        requires
            old(self).wf(),
        ensures
            final(self).wf(),
            match r {
                Ok(()) => exists|fd: u64| final(self)@ == old(self)@.remove(fd),
                Err(_) => final(self)@ == old(self)@,
            },
    {
        let fd = match handle.get_raw_fd() {
            Ok(fd) => fd,
            Err(e) => {
                return Err(e);
            },
        };
        self.remove_fd(fd);
        Ok(())
    }

    /// Tests whether `self` contains a given `fd` and returns the
    /// corresponding events.
    ///
    /// The looked-up descriptor is whatever the handle's own resolution
    /// returned; a failed resolution is passed through.
    pub fn get<T: InOutHandle>(&self, handle: &T) -> (r: core::result::Result<
        Option<&Events>,
        Error,
    >)
        requires
            self.wf(),
        ensures
            match r {
                Ok(Some(ev)) => exists|fd: u64|
                    self@.dom().contains(fd) && *ev == #[trigger] self@[fd],
                _ => true,
            },
    {
        let fd = match handle.get_raw_fd() {
            Ok(fd) => fd,
            Err(e) => {
                return Err(e);
            },
        };
        Ok(self.get_fd(fd))
    }

    /// Snapshots every (descriptor, interest) pair of the set into a flat
    /// transcript of primitive-layout records, one per distinct descriptor,
    /// in the set's internal order.
    pub fn transcript(&self) -> (r: Vec<libselect_fd>)
        requires
            self.wf(),
        ensures
            r@.len() == self.entries().len(),
            forall|i: int|
                0 <= i < r@.len() ==> #[trigger] r@[i] == record_of(
                    self.entries()[i].0,
                    self.entries()[i].1,
                ),
            forall|i: int| 0 <= i < r@.len() ==> self@.dom().contains((#[trigger] r@[i]).handle),
            forall|i: int|
                0 <= i < r@.len() ==> record_events(#[trigger] r@[i]) == self@[r@[i].handle],
    {
        let mut fds: Vec<libselect_fd> = Vec::new();
        let n = self.fds.len();
        let mut i: usize = 0;
        while i < n
            invariant
                n == self.fds.len(),
                self.wf(),
                i <= n,
                fds@.len() == i,
                forall|j: int|
                    0 <= j < i ==> #[trigger] fds@[j] == record_of(self.fds@[j].0, self.fds@[j].1),
            decreases n - i,
        {
            let (fd, ev) = self.fds[i];
            let rec = libselect_fd {
                handle: fd,
                read: if ev.read {
                    1
                } else {
                    0
                },
                write: if ev.write {
                    1
                } else {
                    0
                },
                exception: if ev.exception {
                    1
                } else {
                    0
                },
            };
            fds.push(rec);
            i += 1;
        }
        proof {
            assert forall|j: int| 0 <= j < fds@.len() implies self@.dom().contains(
                (#[trigger] fds@[j]).handle,
            ) && record_events(fds@[j]) == self@[fds@[j].handle] by {
                lemma_map_of_entries_index(self.fds@, j);
            }
        }
        fds
    }

    /// Tests whether `self` contains a given `fd` and returns the
    /// corresponding events with mutable access.
    ///
    /// The looked-up descriptor is whatever the handle's own resolution
    /// returned; a failed resolution is passed through and leaves the set
    /// unchanged.
    pub fn get_mut<T: InOutHandle>(&mut self, handle: &T) -> (r: core::result::Result<
        Option<&mut Events>,
        Error,
    >)
        requires
            old(self).wf(),
        ensures
            final(self).wf(),
            match r {
                Ok(Some(ev)) => exists|fd: u64|
                    final(self)@ == old(self)@.insert(fd, *final(ev)),
                _ => final(self)@ == old(self)@,
            },
    {
        let fd = match handle.get_raw_fd() {
            Ok(fd) => fd,
            Err(e) => {
                return Err(e);
            },
        };
        Ok(self.get_mut_fd(fd))
    }
}

/// A span of time handed to the readiness primitive as the upper bound on
/// its wait: whole seconds plus additional nanoseconds. Zero means "poll
/// once, return immediately".
#[derive(Debug, Clone, Copy, PartialEq, Eq, Structural, PartialOrd, Ord, Hash)]
pub struct Timeout {
    /// The whole seconds of the span
    pub secs: u64,
    /// The nanoseconds beyond the whole seconds
    pub nanos: u32,
}

impl Timeout {
    /// The count of whole milliseconds this span holds.
    pub open spec fn millis(&self) -> int {
        self.secs * 1000 + self.nanos / 1_000_000
    }

    /// A span of `secs` seconds plus `nanos` nanoseconds.
    pub fn new(secs: u64, nanos: u32) -> (r: Self)
        ensures
            r == (Timeout { secs, nanos }),
    {
        Timeout { secs, nanos }
    }

    /// A span of exactly `ms` whole milliseconds.
    pub fn from_millis(ms: u64) -> (r: Self)
        ensures
            r.millis() == ms,
    {
        let secs: u64 = ms / 1000;
        let rest: u64 = ms % 1000;
        let nanos: u32 = (rest as u32) * 1_000_000;
        proof {
            assert(nanos / 1_000_000 == rest) by (nonlinear_arith)
                requires
                    rest < 1000,
                    nanos == rest * 1_000_000,
            ;
        }
        Timeout { secs, nanos }
    }

    /// Encodes the span as the primitive's 64-bit count of whole
    /// milliseconds; fails with `InvalidValue` exactly when the count
    /// exceeds the representable range.
    pub fn as_millis_u64(&self) -> (r: core::result::Result<u64, Error>)
        ensures
            match r {
                Ok(ms) => self.millis() <= u64::MAX && ms == self.millis(),
                Err(e) => self.millis() > u64::MAX && e == Error::invalid_value(),
            },
    {
        let q: u32 = self.nanos / 1_000_000;
        let total: u128 = (self.secs as u128) * 1000 + (q as u128);
        if total <= u64::MAX as u128 {
            Ok(total as u64)
        } else {
            Err(Error::invalid_value())
        }
    }
}

/// The set contents after the observed flags of each transcript record are
/// written back: each record's descriptor is rebound, in order, to the
/// events its flag bytes report.
pub open spec fn scatter(m: Map<u64, Events>, recs: Seq<libselect_fd>) -> Map<u64, Events>
    decreases recs.len(),
{
    if recs.len() == 0 {
        m
    } else {
        scatter(m, recs.drop_last()).insert(recs.last().handle, record_events(recs.last()))
    }
}

/// Writing a transcript back rebinds exactly the descriptors the transcript
/// covers: when all of them already have entries, the set's key set does not
/// change.
pub proof fn lemma_scatter_dom(m: Map<u64, Events>, recs: Seq<libselect_fd>)
    requires
        forall|i: int| 0 <= i < recs.len() ==> m.dom().contains((#[trigger] recs[i]).handle),
    ensures
        scatter(m, recs).dom() == m.dom(),
    decreases recs.len(),
{
    if recs.len() == 0 {
    } else {
        assert forall|i: int| 0 <= i < recs.drop_last().len() implies m.dom().contains((
        #[trigger] recs.drop_last()[i]).handle) by {
            assert(recs.drop_last()[i] == recs[i]);
        }
        lemma_scatter_dom(m, recs.drop_last());
        assert(scatter(m, recs).dom() =~= m.dom());
    }
}

/// Round-trip of observed flags: after a transcript with distinct
/// descriptors is written back, the set holds for each covered descriptor
/// exactly the events its record reports - no flag is dropped, inverted, or
/// defaulted.
pub proof fn lemma_scatter_index(m: Map<u64, Events>, recs: Seq<libselect_fd>, i: int)
    requires
        0 <= i < recs.len(),
        forall|a: int, b: int|
            0 <= a < b < recs.len() ==> (#[trigger] recs[a]).handle != (#[trigger] recs[b]).handle,
    ensures
        scatter(m, recs).dom().contains(recs[i].handle),
        scatter(m, recs)[recs[i].handle] == record_events(recs[i]),
    decreases recs.len(),
{
    if i == recs.len() - 1 {
    } else {
        assert forall|a: int, b: int| 0 <= a < b < recs.drop_last().len() implies (
        #[trigger] recs.drop_last()[a]).handle != (#[trigger] recs.drop_last()[b]).handle by {
            assert(recs.drop_last()[a] == recs[a]);
            assert(recs.drop_last()[b] == recs[b]);
        }
        lemma_scatter_index(m, recs.drop_last(), i);
        assert(recs.last().handle != recs[i].handle);
    }
}

/// No false positives: a reply record whose flag bytes are all zero leaves
/// its descriptor with all interests false, so a handle the primitive saw
/// no activity on reports no event.
pub proof fn lemma_quiet_record_clears_events(m: Map<u64, Events>, recs: Seq<libselect_fd>, i: int)
    requires
        0 <= i < recs.len(),
        forall|a: int, b: int|
            0 <= a < b < recs.len() ==> (#[trigger] recs[a]).handle != (#[trigger] recs[b]).handle,
        recs[i].read == 0,
        recs[i].write == 0,
        recs[i].exception == 0,
    ensures
        scatter(m, recs).dom().contains(recs[i].handle),
        !scatter(m, recs)[recs[i].handle].has_event_spec(),
{
    lemma_scatter_index(m, recs, i);
}

/// Idempotent insert: storing interest for the same descriptor twice leaves
/// the set as if only the second interest had been stored, with exactly one
/// key for that descriptor.
pub proof fn lemma_insert_idempotent(m: Map<u64, Events>, fd: u64, e1: Events, e2: Events)
    ensures
        m.insert(fd, e1).insert(fd, e2) == m.insert(fd, e2),
        m.insert(fd, e1).insert(fd, e2).dom() == m.dom().insert(fd),
{
    assert(m.insert(fd, e1).insert(fd, e2) =~= m.insert(fd, e2));
    assert(m.insert(fd, e1).insert(fd, e2).dom() =~= m.dom().insert(fd));
}

/// A well-formed set holds exactly one entry per distinct descriptor: its
/// transcript has one record per key of its map view, never more.
pub proof fn lemma_one_entry_per_key(s: &SelectSet)
    requires
        s.wf(),
    ensures
        s@.dom().finite(),
        s.entries().len() == s@.dom().len(),
{
    lemma_map_of_entries_len(s.entries());
}

/// Everything one invocation of the readiness primitive takes: the flat
/// transcript of records, one per distinct descriptor of the set, and the
/// timeout as whole milliseconds.
#[derive(Debug, Clone)]
pub struct SelectCall {
    /// The transcript records, in the set's internal order
    pub fds: Vec<libselect_fd>,
    /// The timeout in milliseconds
    pub timeout_ms: u64,
}

/// First half of a multiplex invocation: snapshots every (descriptor,
/// interest) pair of the set into a transcript of primitive-layout records
/// and encodes the timeout. Fails with `InvalidValue`, before any primitive
/// call can be made, exactly when the timeout's millisecond count is not
/// representable. The set itself is untouched.
pub fn select_begin(set: &SelectSet, timeout: Timeout) -> (r: core::result::Result<
    SelectCall,
    Error,
>)
    requires
        set.wf(),
    ensures
        match r {
            Ok(call) => {
                &&& timeout.millis() <= u64::MAX
                &&& call.timeout_ms == timeout.millis()
                &&& call.fds@.len() == set.entries().len()
                &&& forall|i: int|
                    0 <= i < call.fds@.len() ==> #[trigger] call.fds@[i] == record_of(
                        set.entries()[i].0,
                        set.entries()[i].1,
                    )
                &&& forall|i: int|
                    0 <= i < call.fds@.len() ==> set@.dom().contains(
                        (#[trigger] call.fds@[i]).handle,
                    )
            },
            Err(e) => e == Error::invalid_value() && timeout.millis() > u64::MAX,
        },
{
    let timeout_ms = match timeout.as_millis_u64() {
        Ok(ms) => ms,
        Err(e) => {
            return Err(e);
        },
    };
    let fds = set.transcript();
    Ok(SelectCall { fds, timeout_ms })
}

/// Second half of a multiplex invocation: judges the primitive's return
/// code and, on success, writes each transcript record's observed flags
/// back into the set keyed by descriptor. On a nonzero code the set is left
/// with its pre-call contents and the code surfaces as `InOutError`.
///
/// A successful reply whose transcript names a descriptor missing from the
/// set would be an internal-consistency fault: a transcript is only ever
/// derived from the set's own contents, so that input is excluded here
/// rather than handled.
pub fn select_finish(set: &mut SelectSet, fds: &Vec<libselect_fd>, code: i32) -> (r:
    core::result::Result<(), Error>)
    requires
        old(set).wf(),
        code == 0 ==> forall|i: int|
            0 <= i < fds@.len() ==> old(set)@.dom().contains((#[trigger] fds@[i]).handle),
    ensures
        final(set).wf(),
        match r {
            Ok(()) => code == 0 && final(set)@ == scatter(old(set)@, fds@),
            Err(e) => code != 0 && e == Error::in_out(code) && final(set)@ == old(set)@,
        },
{
    if code != 0 {
        return Err(Error::in_out(code));
    }
    let n = fds.len();
    let mut i: usize = 0;
    while i < n
        invariant
            n == fds@.len(),
            set.wf(),
            i <= n,
            set@ == scatter(old(set)@, fds@.take(i as int)),
        decreases n - i,
    {
        let rec = fds[i];
        let ev = Events { read: rec.read > 0, write: rec.write > 0, exception: rec.exception > 0 };
        set.insert_fd(rec.handle, ev);
        proof {
            assert(fds@.take(i as int + 1).drop_last() =~= fds@.take(i as int));
            assert(fds@.take(i as int + 1).last() == fds@[i as int]);
        }
        i += 1;
    }
    proof {
        assert(fds@.take(n as int) =~= fds@);
    }
    Ok(())
}

} // verus!
