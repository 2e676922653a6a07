//! High-level convenience operations around the multiplex protocol.
//!
//! Each operation builds a fresh multiplex set over the caller's handles
//! with a fixed interest and hands back a [`PendingSelect`]: everything the
//! readiness primitive needs, together with the caller's handle order. The
//! caller runs the primitive on the transcript and completes the pending
//! invocation with the primitive's reply, obtaining exactly the handles an
//! event occurred on, in the caller's original order.

use vstd::prelude::*;
use crate::error::Error;
use crate::io::AsInOutHandle;
use crate::select::Event;
use crate::select_impl::Events;
use crate::select_impl::SelectSet;
use crate::select_impl::Timeout;
use crate::select_impl::libselect_fd;
use crate::select_impl::record_events;
use crate::select_impl::scatter;
use crate::select_impl::select_finish;

verus! {

/// The ready pairs among `order`, in that order: each descriptor of `order`
/// that `m` maps to at least one observed event, paired with those events.
pub open spec fn ready_events(order: Seq<u64>, m: Map<u64, Events>) -> Seq<(u64, Events)>
    decreases order.len(),
{
    if order.len() == 0 {
        Seq::empty()
    } else {
        let front = ready_events(order.drop_last(), m);
        let fd = order.last();
        if m.dom().contains(fd) && m[fd].has_event_spec() {
            front.push((fd, m[fd]))
        } else {
            front
        }
    }
}

/// A reply in which no descriptor of the caller's order is ready yields no
/// event pair at all.
pub proof fn lemma_none_ready(order: Seq<u64>, m: Map<u64, Events>)
    requires
        forall|i: int|
            0 <= i < order.len() ==> !(m.dom().contains(#[trigger] order[i])
                && m[order[i]].has_event_spec()),
    ensures
        ready_events(order, m) == Seq::<(u64, Events)>::empty(),
    decreases order.len(),
{
    if order.len() == 0 {
    } else {
        assert forall|i: int| 0 <= i < order.drop_last().len() implies !(m.dom().contains(
            #[trigger] order.drop_last()[i],
        ) && m[order.drop_last()[i]].has_event_spec()) by {
            assert(order.drop_last()[i] == order[i]);
        }
        lemma_none_ready(order.drop_last(), m);
        assert(order[order.len() - 1] == order.last());
    }
}

/// No false positives, end to end: when the primitive's reply covers every
/// awaited descriptor and reports no activity anywhere, completing the
/// invocation yields no event pair at all.
pub proof fn lemma_quiet_reply_no_ready(
    order: Seq<u64>,
    m: Map<u64, Events>,
    recs: Seq<libselect_fd>,
)
    requires
        forall|a: int, b: int|
            0 <= a < b < recs.len() ==> (#[trigger] recs[a]).handle != (#[trigger] recs[b]).handle,
        forall|j: int|
            0 <= j < recs.len() ==> (#[trigger] recs[j]).read == 0 && recs[j].write == 0
                && recs[j].exception == 0,
        forall|i: int|
            0 <= i < order.len() ==> exists|j: int|
                0 <= j < recs.len() && (#[trigger] recs[j]).handle == #[trigger] order[i],
    ensures
        ready_events(order, scatter(m, recs)) == Seq::<(u64, Events)>::empty(),
{
    let m2 = scatter(m, recs);
    assert forall|i: int| 0 <= i < order.len() implies !(m2.dom().contains(#[trigger] order[i])
        && m2[order[i]].has_event_spec()) by {
        let j = choose|j: int| 0 <= j < recs.len() && (#[trigger] recs[j]).handle == order[i];
        crate::select_impl::lemma_scatter_index(m, recs, j);
    }
    lemma_none_ready(order, m2);
}

/// Order preservation under lone readiness: when exactly one descriptor of
/// the caller's order is ready, the result is exactly that one (descriptor,
/// events) pair - wherever the descriptor stands in the order, so the
/// filtering never reorders into some internal iteration order.
pub proof fn lemma_single_ready(order: Seq<u64>, m: Map<u64, Events>, fd: u64)
    requires
        order.contains(fd),
        forall|i: int, j: int|
            0 <= i < j < order.len() ==> #[trigger] order[i] != #[trigger] order[j],
        m.dom().contains(fd),
        m[fd].has_event_spec(),
        forall|i: int|
            0 <= i < order.len() && order[i] != fd ==> !(m.dom().contains(#[trigger] order[i])
                && m[order[i]].has_event_spec()),
    ensures
        ready_events(order, m) == seq![(fd, m[fd])],
    decreases order.len(),
{
    let k = choose|k: int| 0 <= k < order.len() && order[k] == fd;
    if order.last() == fd {
        assert forall|i: int| 0 <= i < order.drop_last().len() implies !(m.dom().contains(
            #[trigger] order.drop_last()[i],
        ) && m[order.drop_last()[i]].has_event_spec()) by {
            assert(order.drop_last()[i] == order[i]);
            assert(order[i] != order[order.len() - 1]);
        }
        lemma_none_ready(order.drop_last(), m);
        assert(ready_events(order, m) =~= seq![(fd, m[fd])]);
    } else {
        assert(k < order.len() - 1);
        assert(order.drop_last()[k] == fd);
        assert(order.drop_last().contains(fd));
        assert forall|i: int, j: int|
            0 <= i < j < order.drop_last().len() implies #[trigger] order.drop_last()[i]
            != #[trigger] order.drop_last()[j] by {
            assert(order.drop_last()[i] == order[i]);
            assert(order.drop_last()[j] == order[j]);
        }
        assert forall|i: int|
            0 <= i < order.drop_last().len() && order.drop_last()[i] != fd implies !(
        m.dom().contains(#[trigger] order.drop_last()[i])
            && m[order.drop_last()[i]].has_event_spec()) by {
            assert(order.drop_last()[i] == order[i]);
        }
        lemma_single_ready(order.drop_last(), m, fd);
        assert(order[order.len() - 1] == order.last());
    }
}

/// A prepared convenience invocation: the multiplex set built from the
/// caller's handles with one fixed interest for all of them, the caller's
/// descriptor order, and the timeout already encoded for the primitive.
#[derive(Debug, Clone)]
pub struct PendingSelect {
    /// The multiplex set submitted to the primitive
    set: SelectSet,
    /// The resolved descriptors in the caller's order
    order: Vec<u64>,
    /// The timeout in milliseconds
    timeout_ms: u64,
}

impl PendingSelect {
    /// The contents of the underlying multiplex set.
    pub closed spec fn map_spec(&self) -> Map<u64, Events> {
        self.set@
    }

    /// The resolved descriptors in the caller's order.
    pub closed spec fn order_spec(&self) -> Seq<u64> {
        self.order@
    }

    /// The encoded timeout.
    pub closed spec fn timeout_ms_spec(&self) -> u64 {
        self.timeout_ms
    }

    /// Well-formedness: the set is well-formed and holds exactly the
    /// descriptors of the caller's order.
    pub closed spec fn wf(&self) -> bool {
        &&& self.set.wf()
        &&& forall|i: int|
            0 <= i < self.order@.len() ==> self.set@.dom().contains(#[trigger] self.order@[i])
    }

    /// The timeout to invoke the primitive with, in milliseconds.
    pub fn timeout_ms(&self) -> (r: u64)
        ensures
            r == self.timeout_ms_spec(),
    {
        self.timeout_ms
    }

    /// The flat transcript to invoke the primitive with: one record per
    /// distinct descriptor, carrying the requested interest flags.
    pub fn transcript(&self) -> (r: Vec<libselect_fd>)
        requires
            self.wf(),
        ensures
            self.map_spec().dom().finite(),
            r@.len() == self.map_spec().dom().len(),
            forall|i: int|
                0 <= i < r@.len() ==> self.map_spec().dom().contains((#[trigger] r@[i]).handle),
            forall|i: int|
                0 <= i < r@.len() ==> record_events(#[trigger] r@[i])
                    == self.map_spec()[r@[i].handle],
    {
        proof {
            crate::select_impl::lemma_one_entry_per_key(&self.set);
        }
        self.set.transcript()
    }

    /// Completes the invocation with the primitive's reply: the transcript
    /// as the primitive left it and the primitive's return code.
    ///
    /// On code `0` the observed flags are written back into the set and the
    /// handles with at least one observed event are returned, paired with
    /// their events, in the caller's original handle order; handles that
    /// never became ready are silently excluded. On a nonzero code nothing
    /// is returned beyond an `InOutError` carrying the code.
    pub fn complete(self, fds: &Vec<libselect_fd>, code: i32) -> (r: core::result::Result<
        Vec<Event>,
        Error,
    >)
        requires
            self.wf(),
            code == 0 ==> forall|i: int|
                0 <= i < fds@.len() ==> self.map_spec().dom().contains(
                    (#[trigger] fds@[i]).handle,
                ),
        ensures
            match r {
                Ok(evs) => {
                    &&& code == 0
                    &&& evs@.len() == ready_events(
                        self.order_spec(),
                        scatter(self.map_spec(), fds@),
                    ).len()
                    &&& forall|i: int|
                        0 <= i < evs@.len() ==> (#[trigger] evs@[i]).handle_spec()
                            == ready_events(self.order_spec(), scatter(self.map_spec(), fds@))[i].0
                            && evs@[i].events_spec() == ready_events(
                            self.order_spec(),
                            scatter(self.map_spec(), fds@),
                        )[i].1
                },
                Err(e) => code != 0 && e == Error::in_out(code),
            },
    {
        let mut set = self.set;
        match select_finish(&mut set, fds, code) {
            Ok(()) => {},
            Err(e) => {
                return Err(e);
            },
        }
        let ghost m = set@;
        let mut events: Vec<Event> = Vec::new();
        let n = self.order.len();
        let mut i: usize = 0;
        while i < n
            invariant
                n == self.order@.len(),
                set.wf(),
                set@ == m,
                i <= n,
                events@.len() == ready_events(self.order@.take(i as int), m).len(),
                forall|j: int|
                    0 <= j < events@.len() ==> (#[trigger] events@[j]).handle_spec()
                        == ready_events(self.order@.take(i as int), m)[j].0 && events@[j].events_spec()
                        == ready_events(self.order@.take(i as int), m)[j].1,
            decreases n - i,
        {
            let fd = self.order[i];
            proof {
                assert(self.order@.take(i as int + 1).drop_last() =~= self.order@.take(i as int));
                assert(self.order@.take(i as int + 1).last() == self.order@[i as int]);
            }
            match set.get_fd(fd) {
                Some(ev) => {
                    if ev.has_event() {
                        let ev = *ev;
                        events.push(Event::from_parts(fd, ev));
                    }
                },
                None => {},
            }
            i += 1;
        }
        proof {
            assert(self.order@.take(n as int) =~= self.order@);
        }
        Ok(events)
    }
}

/// Builds a pending invocation from already-resolved descriptors: every
/// descriptor is given the same interest, a repeated descriptor keeps one
/// entry, and the timeout is encoded up front. Fails with `InvalidValue`,
/// before any primitive call can be made, exactly when the timeout's
/// millisecond count is not representable.
pub fn prepare_select(
    fds: &Vec<u64>,
    read: bool,
    write: bool,
    exception: bool,
    timeout: Timeout,
) -> (r: core::result::Result<PendingSelect, Error>)
    ensures
        match r {
            Ok(p) => {
                &&& timeout.millis() <= u64::MAX
                &&& p.wf()
                &&& p.timeout_ms_spec() == timeout.millis()
                &&& p.order_spec() == fds@
                &&& forall|fd: u64| #[trigger] p.map_spec().dom().contains(fd) <==> fds@.contains(fd)
                &&& forall|fd: u64|
                    p.map_spec().dom().contains(fd) ==> #[trigger] p.map_spec()[fd] == (Events {
                        read,
                        write,
                        exception,
                    })
            },
            Err(e) => timeout.millis() > u64::MAX && e == Error::invalid_value(),
        },
{
    let timeout_ms = match timeout.as_millis_u64() {
        Ok(ms) => ms,
        Err(e) => {
            return Err(e);
        },
    };
    let interest = Events { read, write, exception };
    let mut set = SelectSet::new();
    let mut order: Vec<u64> = Vec::new();
    let n = fds.len();
    let mut i: usize = 0;
    while i < n
        invariant
            n == fds@.len(),
            set.wf(),
            i <= n,
            order@ == fds@.take(i as int),
            forall|fd: u64| #[trigger] set@.dom().contains(fd) <==> fds@.take(i as int).contains(fd),
            forall|fd: u64| set@.dom().contains(fd) ==> #[trigger] set@[fd] == interest,
        decreases n - i,
    {
        let fd = fds[i];
        set.insert_fd(fd, interest);
        order.push(fd);
        proof {
            assert(order@ =~= fds@.take(i as int + 1));
            assert forall|x: u64| #[trigger] set@.dom().contains(x) <==> fds@.take(
                i as int + 1,
            ).contains(x) by {
                if set@.dom().contains(x) {
                    if x == fd {
                        assert(fds@.take(i as int + 1)[i as int] == x);
                    } else {
                        let j = choose|j: int|
                            0 <= j < fds@.take(i as int).len() && #[trigger] fds@.take(
                                i as int,
                            )[j] == x;
                        assert(fds@.take(i as int + 1)[j] == x);
                    }
                }
                if fds@.take(i as int + 1).contains(x) {
                    let j = choose|j: int|
                        0 <= j < fds@.take(i as int + 1).len() && #[trigger] fds@.take(
                            i as int + 1,
                        )[j] == x;
                    if j < i as int {
                        assert(fds@.take(i as int)[j] == x);
                    }
                }
            }
        }
        i += 1;
    }
    proof {
        assert(fds@.take(n as int) =~= fds@);
    }
    let p = PendingSelect { set, order, timeout_ms };
    proof {
        assert forall|j: int| 0 <= j < p.order@.len() implies p.set@.dom().contains(
            #[trigger] p.order@[j],
        ) by {
            assert(fds@.contains(fds@[j]));
        }
    }
    Ok(p)
}

/// Performs the bookkeeping half of a `select` call with the given
/// `handles` for the given interests: resolves every handle, builds the
/// multiplex set and remembers the caller's order, and encodes the timeout.
///
/// A handle whose own resolution fails has its error passed through; an
/// unrepresentable timeout fails with `InvalidValue`. Either way no
/// primitive call is prepared.
pub fn select_event<T: AsInOutHandle>(
    handles: &Vec<T>,
    read: bool,
    write: bool,
    exception: bool,
    timeout: Timeout,
) -> (r: core::result::Result<PendingSelect, Error>)
    ensures
        timeout.millis() > u64::MAX ==> r is Err,
        handles@.len() == 0 && timeout.millis() <= u64::MAX ==> r is Ok,
        match r {
            Ok(p) => {
                &&& timeout.millis() <= u64::MAX
                &&& p.wf()
                &&& p.timeout_ms_spec() == timeout.millis()
                &&& p.order_spec().len() == handles@.len()
                &&& forall|fd: u64|
                    p.map_spec().dom().contains(fd) ==> #[trigger] p.map_spec()[fd] == (Events {
                        read,
                        write,
                        exception,
                    })
            },
            Err(_) => true,
        },
{
    let mut fds: Vec<u64> = Vec::new();
    let n = handles.len();
    let mut i: usize = 0;
    while i < n
        invariant
            n == handles@.len(),
            i <= n,
            fds@.len() == i,
        decreases n - i,
    {
        let handle = match handles[i].as_io_handle() {
            Ok(h) => h,
            Err(e) => {
                return Err(e);
            },
        };
        fds.push(handle.raw());
        i += 1;
    }
    prepare_select(&fds, read, write, exception, timeout)
}

/// Performs the bookkeeping half of a `select` call with the given
/// `handles` for read- and exception-events: every handle is awaited with
/// the interest {read: true, write: false, exception: true}.
pub fn select_read<T: AsInOutHandle>(handles: &Vec<T>, timeout: Timeout) -> (r:
    core::result::Result<PendingSelect, Error>)
    ensures
        timeout.millis() > u64::MAX ==> r is Err,
        handles@.len() == 0 && timeout.millis() <= u64::MAX ==> r is Ok,
        match r {
            Ok(p) => {
                &&& timeout.millis() <= u64::MAX
                &&& p.wf()
                &&& p.timeout_ms_spec() == timeout.millis()
                &&& p.order_spec().len() == handles@.len()
                &&& forall|fd: u64|
                    p.map_spec().dom().contains(fd) ==> #[trigger] p.map_spec()[fd] == (Events {
                        read: true,
                        write: false,
                        exception: true,
                    })
            },
            Err(_) => true,
        },
{
    select_event(handles, true, false, true, timeout)
}

/// Performs the bookkeeping half of a `select` call with the given
/// `handles` for write- and exception-events: every handle is awaited with
/// the interest {read: false, write: true, exception: true}.
pub fn select_write<T: AsInOutHandle>(handles: &Vec<T>, timeout: Timeout) -> (r:
    core::result::Result<PendingSelect, Error>)
    ensures
        timeout.millis() > u64::MAX ==> r is Err,
        handles@.len() == 0 && timeout.millis() <= u64::MAX ==> r is Ok,
        match r {
            Ok(p) => {
                &&& timeout.millis() <= u64::MAX
                &&& p.wf()
                &&& p.timeout_ms_spec() == timeout.millis()
                &&& p.order_spec().len() == handles@.len()
                &&& forall|fd: u64|
                    p.map_spec().dom().contains(fd) ==> #[trigger] p.map_spec()[fd] == (Events {
                        read: false,
                        write: true,
                        exception: true,
                    })
            },
            Err(_) => true,
        },
{
    select_event(handles, false, true, true, timeout)
}

/// Performs the bookkeeping half of a `select` call with the given
/// `handles` for read-, write- and exception-events: every handle is
/// awaited with the interest {read: true, write: true, exception: true}.
pub fn select_readwrite<T: AsInOutHandle>(handles: &Vec<T>, timeout: Timeout) -> (r:
    core::result::Result<PendingSelect, Error>)
    ensures
        timeout.millis() > u64::MAX ==> r is Err,
        handles@.len() == 0 && timeout.millis() <= u64::MAX ==> r is Ok,
        match r {
            Ok(p) => {
                &&& timeout.millis() <= u64::MAX
                &&& p.wf()
                &&& p.timeout_ms_spec() == timeout.millis()
                &&& p.order_spec().len() == handles@.len()
                &&& forall|fd: u64|
                    p.map_spec().dom().contains(fd) ==> #[trigger] p.map_spec()[fd] == (Events {
                        read: true,
                        write: true,
                        exception: true,
                    })
            },
            Err(_) => true,
        },
{
    select_event(handles, true, true, true, timeout)
}

} // verus!
