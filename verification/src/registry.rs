use vstd::prelude::*;

verus! {

/// Seconds a device record stays live after its last liveness signal.
/// Expiry is computed on read, never stored: a record whose signal is
/// older than this is logically absent.
pub const LIVENESS_TIMEOUT_S: i64 = 10;

/// One device liveness record.  The id is the 128-bit value of the
/// device's UUID; `last_alive` is in seconds since the Unix epoch.
pub struct Device {
    pub uuid: u128,
    pub last_alive: i64,
    pub dev_type: String,
}

/// Startup was requested while a live record with the same id exists.
#[derive(Debug)]
pub struct DuplicateDeviceError;

/// No record for the id exists, or the record that exists has expired.
#[derive(Debug)]
pub struct NotFoundError;

/// A record is live at `now` while less than the liveness timeout has
/// elapsed since its last signal.  A signal from the future also counts
/// as live.
pub open spec fn live_at(last_alive: i64, now: i64) -> bool {
    now - last_alive < LIVENESS_TIMEOUT_S
}

/// Keyed store of device liveness records with TTL semantics.  At most
/// one record per id exists at a time; registration over an expired
/// record replaces it in place.
pub struct DeviceRegistry {
    devices: Vec<Device>,
}

impl DeviceRegistry {
    /// The records in the store, in insertion order.
    pub closed spec fn seq(self) -> Seq<Device> {
        self.devices@
    }

    /// Well-formed: no two records share an id.
    pub open spec fn wf(self) -> bool {
        forall|i: int, j: int|
            0 <= i < self.seq().len() && 0 <= j < self.seq().len() && i != j
                ==> self.seq()[i].uuid != self.seq()[j].uuid
    }

    /// Some record (live or expired) carries this id.
    pub open spec fn has_id(self, id: u128) -> bool {
        exists|i: int| 0 <= i < self.seq().len() && self.seq()[i].uuid == id
    }

    /// Index of the record carrying `id`; meaningful only when
    /// `has_id(id)` holds (and then unique, by `wf`).
    pub open spec fn idx_of(self, id: u128) -> int {
        choose|i: int| 0 <= i < self.seq().len() && self.seq()[i].uuid == id
    }

    /// The record carrying `id`.
    pub open spec fn rec(self, id: u128) -> Device {
        self.seq()[self.idx_of(id)]
    }

    /// A record for `id` exists and is live at `now`.
    pub open spec fn has_live(self, id: u128, now: i64) -> bool {
        self.has_id(id) && live_at(self.rec(id).last_alive, now)
    }

    pub fn new() -> (r: DeviceRegistry)
        ensures
            r.wf(),
            r.seq().len() == 0,
    {
        DeviceRegistry { devices: Vec::new() }
    }

    /// Position of the record carrying `uuid`, if any.
    fn find_index(&self, uuid: u128) -> (r: Option<usize>)
        requires
            self.wf(),
        ensures
            match r {
                Some(i) => i < self.seq().len() && self.seq()[i as int].uuid == uuid
                    && self.has_id(uuid) && self.idx_of(uuid) == i,
                None => !self.has_id(uuid),
            },
    {
        let mut i: usize = 0;
        while i < self.devices.len()
            invariant
                self.wf(),
                i <= self.seq().len(),
                forall|j: int| 0 <= j < i ==> self.seq()[j].uuid != uuid,
            decreases self.seq().len() - i,
        {
            if self.devices[i].uuid == uuid {
                proof {
                    let k = self.idx_of(uuid);
                    assert(0 <= k < self.seq().len() && self.seq()[k].uuid == uuid);
                }
                return Some(i);
            }
            i = i + 1;
        }
        None
    }

    /// The liveness predicate, computed without overflow.
    fn is_live(last_alive: i64, now: i64) -> (r: bool)
        ensures
            r == live_at(last_alive, now),
    {
        (now as i128) - (last_alive as i128) < LIVENESS_TIMEOUT_S as i128
    }

    /// Register a device: fails while a live record with the same id
    /// exists; otherwise stores the given record, replacing an expired
    /// one in place.  Expired records never block registration.
    pub fn add_dev(&mut self, dev: Device, now: i64) -> (r: Result<(), DuplicateDeviceError>)
        requires
            old(self).wf(),
        ensures
            final(self).wf(),
            r is Ok <==> !old(self).has_live(dev.uuid, now),
            r is Err ==> *final(self) == *old(self),
            r is Ok ==> final(self).has_id(dev.uuid) && final(self).rec(dev.uuid) == dev,
            r is Ok ==> forall|id2: u128|
                id2 != dev.uuid ==> #[trigger] final(self).has_id(id2) == old(self).has_id(id2),
            r is Ok ==> forall|id2: u128|
                id2 != dev.uuid && old(self).has_id(id2) ==> #[trigger] final(self).rec(id2)
                    == old(self).rec(id2),
    {
        match self.find_index(dev.uuid) {
            Some(i) => {
                if Self::is_live(self.devices[i].last_alive, now) {
                    Err(DuplicateDeviceError)
                } else {
                    self.devices[i] = dev;
                    proof {
                        lemma_update_frame(*old(self), *self, i as int, dev);
                    }
                    Ok(())
                }
            },
            None => {
                self.devices.push(dev);
                proof {
                    lemma_push_frame(*old(self), *self, dev);
                }
                Ok(())
            },
        }
    }

    /// Look a device up: fails when no record exists or the record has
    /// expired.  On success returns a copy of the stored record.
    pub fn get_dev(&self, uuid: u128, now: i64) -> (r: Result<Device, NotFoundError>)
        requires
            self.wf(),
        ensures
            r is Ok <==> self.has_live(uuid, now),
            r is Ok ==> r->Ok_0 == self.rec(uuid),
    {
        match self.find_index(uuid) {
            Some(i) => {
                let d = &self.devices[i];
                if Self::is_live(d.last_alive, now) {
                    Ok(Device { uuid: d.uuid, last_alive: d.last_alive, dev_type: d.dev_type.clone() })
                } else {
                    Err(NotFoundError)
                }
            },
            None => Err(NotFoundError),
        }
    }

    /// Renew a device's liveness: same precondition as `get_dev`; on
    /// success overwrites `last_alive` with the given timestamp and
    /// changes nothing else.
    pub fn update_dev(&mut self, uuid: u128, last_alive: i64, now: i64) -> (r: Result<
        (),
        NotFoundError,
    >)
        requires
            old(self).wf(),
        ensures
            final(self).wf(),
            r is Ok <==> old(self).has_live(uuid, now),
            r is Err ==> *final(self) == *old(self),
            r is Ok ==> final(self).has_id(uuid) && final(self).rec(uuid).last_alive == last_alive
                && final(self).rec(uuid).uuid == uuid
                && final(self).rec(uuid).dev_type == old(self).rec(uuid).dev_type,
            r is Ok ==> forall|id2: u128|
                id2 != uuid ==> #[trigger] final(self).has_id(id2) == old(self).has_id(id2),
            r is Ok ==> forall|id2: u128|
                id2 != uuid && old(self).has_id(id2) ==> #[trigger] final(self).rec(id2)
                    == old(self).rec(id2),
    {
        match self.find_index(uuid) {
            Some(i) => {
                if Self::is_live(self.devices[i].last_alive, now) {
                    self.devices[i].last_alive = last_alive;
                    proof {
                        lemma_update_frame(*old(self), *self, i as int, self.seq()[i as int]);
                    }
                    Ok(())
                } else {
                    Err(NotFoundError)
                }
            },
            None => Err(NotFoundError),
        }
    }
}

/// Replacing the record at `i` by one with the same id preserves
/// well-formedness and the lookup functions on every other id.
proof fn lemma_update_frame(pre: DeviceRegistry, post: DeviceRegistry, i: int, dev: Device)
    requires
        pre.wf(),
        0 <= i < pre.seq().len(),
        post.seq().len() == pre.seq().len(),
        post.seq()[i] == dev,
        dev.uuid == pre.seq()[i].uuid,
        forall|j: int| 0 <= j < pre.seq().len() && j != i ==> post.seq()[j] == pre.seq()[j],
    ensures
        post.wf(),
        post.has_id(dev.uuid),
        post.rec(dev.uuid) == dev,
        forall|id2: u128|
            id2 != dev.uuid ==> #[trigger] post.has_id(id2) == pre.has_id(id2),
        forall|id2: u128|
            id2 != dev.uuid && pre.has_id(id2) ==> #[trigger] post.rec(id2) == pre.rec(id2),
{
    assert(forall|j: int|
        0 <= j < post.seq().len() ==> #[trigger] post.seq()[j].uuid == pre.seq()[j].uuid);
    assert(post.seq()[i].uuid == dev.uuid);
    let k = post.idx_of(dev.uuid);
    assert(0 <= k < post.seq().len() && post.seq()[k].uuid == dev.uuid);
    assert(k == i) by {
        if k != i {
            assert(pre.seq()[k].uuid == pre.seq()[i].uuid);
        }
    }
    assert forall|id2: u128| id2 != dev.uuid implies #[trigger] post.has_id(id2) == pre.has_id(id2)
        && (pre.has_id(id2) ==> post.rec(id2) == pre.rec(id2)) by {
        if pre.has_id(id2) {
            let j = pre.idx_of(id2);
            assert(0 <= j < pre.seq().len() && pre.seq()[j].uuid == id2);
            assert(j != i);
            assert(post.seq()[j].uuid == id2);
            assert(post.has_id(id2));
            let j2 = post.idx_of(id2);
            assert(0 <= j2 < post.seq().len() && post.seq()[j2].uuid == id2);
            assert(j2 == j) by {
                if j2 != j {
                    assert(post.seq()[j2].uuid == post.seq()[j].uuid);
                }
            }
        }
        if post.has_id(id2) {
            let j = post.idx_of(id2);
            assert(0 <= j < post.seq().len() && post.seq()[j].uuid == id2);
            assert(j != i);
            assert(pre.seq()[j].uuid == id2);
            assert(pre.has_id(id2));
        }
    }
}

/// Appending a record whose id is fresh preserves well-formedness and
/// the lookup functions on every other id.
proof fn lemma_push_frame(pre: DeviceRegistry, post: DeviceRegistry, dev: Device)
    requires
        pre.wf(),
        !pre.has_id(dev.uuid),
        post.seq().len() == pre.seq().len() + 1,
        post.seq()[pre.seq().len() as int] == dev,
        forall|j: int| 0 <= j < pre.seq().len() ==> post.seq()[j] == pre.seq()[j],
    ensures
        post.wf(),
        post.has_id(dev.uuid),
        post.rec(dev.uuid) == dev,
        forall|id2: u128|
            id2 != dev.uuid ==> #[trigger] post.has_id(id2) == pre.has_id(id2),
        forall|id2: u128|
            id2 != dev.uuid && pre.has_id(id2) ==> #[trigger] post.rec(id2) == pre.rec(id2),
{
    let n = pre.seq().len() as int;
    assert(forall|j: int| 0 <= j < n ==> #[trigger] post.seq()[j].uuid != dev.uuid);
    assert(post.seq()[n].uuid == dev.uuid);
    let k = post.idx_of(dev.uuid);
    assert(0 <= k < post.seq().len() && post.seq()[k].uuid == dev.uuid);
    assert(k == n);
    assert forall|id2: u128| id2 != dev.uuid implies #[trigger] post.has_id(id2) == pre.has_id(id2)
        && (pre.has_id(id2) ==> post.rec(id2) == pre.rec(id2)) by {
        if pre.has_id(id2) {
            let j = pre.idx_of(id2);
            assert(0 <= j < n && pre.seq()[j].uuid == id2);
            assert(post.seq()[j].uuid == id2);
            assert(post.has_id(id2));
            let j2 = post.idx_of(id2);
            assert(0 <= j2 < post.seq().len() && post.seq()[j2].uuid == id2);
            assert(j2 == j) by {
                if j2 != j {
                    assert(post.seq()[j2].uuid == post.seq()[j].uuid);
                }
            }
        }
        if post.has_id(id2) {
            let j = post.idx_of(id2);
            assert(0 <= j < post.seq().len() && post.seq()[j].uuid == id2);
            assert(j != n);
            assert(pre.seq()[j].uuid == id2);
            assert(pre.has_id(id2));
        }
    }
}

/// Once `now - last_alive` has reached the liveness timeout, the record
/// is no longer live, even though it still exists in the store: by the
/// contracts of `get_dev` and `update_dev`, both then fail with
/// `NotFoundError`.
pub proof fn lemma_expired_behaves_absent(r: DeviceRegistry, id: u128, now: i64)
    requires
        r.has_id(id),
        now - r.rec(id).last_alive >= LIVENESS_TIMEOUT_S,
    ensures
        !r.has_live(id, now),
{
}

/// An id that was never registered has no record at all, so it is not
/// live at any time: by the contracts of `get_dev` and `update_dev`,
/// keep-alive and transmit handling for it fail with `NotFoundError`,
/// and neither call creates a record.
pub proof fn lemma_unregistered_absent(r: DeviceRegistry, id: u128, now: i64)
    requires
        !r.has_id(id),
    ensures
        !r.has_live(id, now),
{
}

/// Two registrations of the same id with no elapsed expiry between
/// them: after the first succeeds at `t1`, the record stays live at
/// every `t2` within the liveness timeout, so by the contract of
/// `add_dev` a second registration at `t2` returns
/// `DuplicateDeviceError`.
pub proof fn lemma_register_again_fails(r: DeviceRegistry, id: u128, t1: i64, t2: i64)
    requires
        r.has_id(id),
        r.rec(id).last_alive == t1,
        t2 - t1 < LIVENESS_TIMEOUT_S,
    ensures
        r.has_live(id, t2),
{
}

} // verus!
