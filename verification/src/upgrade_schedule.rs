//! Protocol-upgrade voting schedule: an ordered timestamp -> version table
//! and the "latest entry at or before now" query over it. Timestamps are
//! whole seconds since the Unix epoch; only the reading of the wall clock is
//! delegated to an outside crate.

use vstd::prelude::*;

verus! {

/// One schedule entry: validators are expected to vote on `version` once the
/// wall clock reaches `timestamp`.
#[derive(Clone, Copy, PartialEq, Eq, Structural, Debug)]
pub struct ScheduleEntry {
    pub timestamp: i64,
    pub version: u32,
}

/// Timestamps strictly increase along the table.
pub open spec fn sorted_strict(s: Seq<ScheduleEntry>) -> bool {
    forall|i: int, j: int| 0 <= i < j < s.len() ==> s[i].timestamp < s[j].timestamp
}

/// The version of the latest entry whose timestamp is at or before `now`,
/// or nothing when every entry lies in the future.
pub open spec fn latest_at(s: Seq<ScheduleEntry>, now: i64) -> Option<u32>
    decreases s.len(),
{
    if s.len() == 0 {
        None
    } else if s.last().timestamp <= now {
        Some(s.last().version)
    } else {
        latest_at(s.drop_last(), now)
    }
}

/// Defines the points in time after which validators are expected to vote on
/// new protocol versions.
#[derive(Clone, PartialEq, Debug)]
pub struct ProtocolUpgradeVotingSchedule {
    pub timestamp_to_version: Vec<ScheduleEntry>,
}

/// Entries at adjacent positions ordered strictly orders every pair.
proof fn lemma_chain(s: Seq<ScheduleEntry>, i: int, j: int)
    requires
        forall|k: int| 0 <= k < s.len() - 1 ==> #[trigger] s[k].timestamp < s[k + 1].timestamp,
        0 <= i < j < s.len(),
    ensures
        s[i].timestamp < s[j].timestamp,
    decreases j - i,
{
    if j > i + 1 {
        lemma_chain(s, i, j - 1);
    }
}

impl Default for ProtocolUpgradeVotingSchedule {
    /// The empty schedule: no voting point has been set.
    fn default() -> (r: Self)
        ensures
            r.wf(),
            r.timestamp_to_version@ == Seq::<ScheduleEntry>::empty(),
    {
        let r = ProtocolUpgradeVotingSchedule { timestamp_to_version: Vec::new() };
        proof {
            assert(r.timestamp_to_version@ =~= Seq::<ScheduleEntry>::empty());
        }
        r
    }
}

impl ProtocolUpgradeVotingSchedule {
    /// Well-formed: the table is strictly ordered by timestamp, as a map
    /// keyed by timestamp is.
    pub open spec fn wf(self) -> bool {
        sorted_strict(self.timestamp_to_version@)
    }

    /// Build a schedule from an entry list; rejected unless the timestamps
    /// strictly increase.
    pub fn from_entries(entries: Vec<ScheduleEntry>) -> (r: Option<Self>)
        ensures
            match r {
                Some(s) => s.wf() && s.timestamp_to_version@ == entries@,
                None => !sorted_strict(entries@),
            },
    {
        let n = entries.len();
        if n > 0 {
            let mut k: usize = 0;
            while k < n - 1
                invariant
                    n == entries@.len(),
                    n >= 1,
                    k <= entries@.len(),
                    forall|m: int|
                        0 <= m < k ==> #[trigger] entries@[m].timestamp < entries@[m
                            + 1].timestamp,
                decreases entries@.len() - k,
            {
                if entries[k].timestamp >= entries[k + 1].timestamp {
                    return None;
                }
                k = k + 1;
            }
        }
        proof {
            lemma_adjacent_sorted(entries@);
        }
        Some(ProtocolUpgradeVotingSchedule { timestamp_to_version: entries })
    }

    /// The version announced at the instant `now`: that of the latest entry
    /// whose timestamp is at or before `now`, or nothing when all entries are
    /// in the future.
    pub fn latest_announced_at(&self, now: i64) -> (r: Option<u32>)
        ensures
            r == latest_at(self.timestamp_to_version@, now),
    {
        let ghost full = self.timestamp_to_version@;
        let mut i: usize = self.timestamp_to_version.len();
        proof {
            assert(full.take(full.len() as int) =~= full);
        }
        while i > 0
            invariant
                i <= full.len(),
                full == self.timestamp_to_version@,
                latest_at(full, now) == latest_at(full.take(i as int), now),
            decreases i,
        {
            let e = self.timestamp_to_version[i - 1];
            proof {
                assert(full.take(i as int).last() == full[i as int - 1]);
                assert(full.take(i as int).drop_last() =~= full.take(i as int - 1));
            }
            if e.timestamp <= now {
                return Some(e.version);
            }
            i = i - 1;
        }
        None
    }

    /// Return the latest announced protocol version: announced means the wall
    /// clock has reached the entry's voting timestamp. Whatever instant the
    /// clock reports, the answer is this schedule's latest entry at or before
    /// that instant; when all timestamps are in the future it is `None`.
    pub fn get_latest_announced_version(&self) -> (r: Option<u32>)
        ensures
            exists|t: i64| r == latest_at(self.timestamp_to_version@, t),
    {
        let now = now_timestamp();
        let r = self.latest_announced_at(now);
        proof {
            assert(r == latest_at(self.timestamp_to_version@, now));
        }
        r
    }
}

/// Adjacent strict ordering lifts to the full table.
proof fn lemma_adjacent_sorted(s: Seq<ScheduleEntry>)
    requires
        forall|k: int| 0 <= k < s.len() - 1 ==> #[trigger] s[k].timestamp < s[k + 1].timestamp,
    ensures
        sorted_strict(s),
{
    assert forall|i: int, j: int| 0 <= i < j < s.len() implies s[i].timestamp
        < s[j].timestamp by {
        lemma_chain(s, i, j);
    }
}

/// Relies on chrono::Utc::now, the current wall-clock reading, reduced by
/// chrono::DateTime::timestamp to whole seconds since the Unix epoch. Nothing
/// can be promised of what the clock reports.
#[verifier::external_body]
fn now_timestamp() -> i64 {
    chrono::Utc::now().timestamp()
}

/// The version-announcement decision at a given instant: a client announces
/// its own version once the next epoch has caught up with it, announces the
/// latest scheduled version once voting for one has opened, and otherwise
/// keeps announcing the next epoch's version.
pub open spec fn protocol_version_spec(
    next_epoch_protocol_version: u32,
    client_protocol_version: u32,
    schedule: Seq<ScheduleEntry>,
    now: i64,
) -> u32 {
    if next_epoch_protocol_version >= client_protocol_version {
        client_protocol_version
    } else {
        match latest_at(schedule, now) {
            Some(v) => v,
            None => next_epoch_protocol_version,
        }
    }
}

/// Deterministic core of the announcement decision, at the instant `now`.
pub fn protocol_version_at(
    next_epoch_protocol_version: u32,
    client_protocol_version: u32,
    voting_schedule: &ProtocolUpgradeVotingSchedule,
    now: i64,
) -> (r: u32)
    ensures
        r == protocol_version_spec(
            next_epoch_protocol_version,
            client_protocol_version,
            voting_schedule.timestamp_to_version@,
            now,
        ),
{
    if next_epoch_protocol_version >= client_protocol_version {
        client_protocol_version
    } else {
        match voting_schedule.latest_announced_at(now) {
            Some(v) => v,
            None => next_epoch_protocol_version,
        }
    }
}

/// The protocol version a client should announce, decided at the current
/// wall-clock instant.
pub fn get_protocol_version_internal(
    next_epoch_protocol_version: u32,
    client_protocol_version: u32,
    voting_schedule: &ProtocolUpgradeVotingSchedule,
) -> (r: u32)
    ensures
        exists|t: i64|
            r == protocol_version_spec(
                next_epoch_protocol_version,
                client_protocol_version,
                voting_schedule.timestamp_to_version@,
                t,
            ),
        next_epoch_protocol_version >= client_protocol_version ==> r
            == client_protocol_version,
{
    let now = now_timestamp();
    let r = protocol_version_at(
        next_epoch_protocol_version,
        client_protocol_version,
        voting_schedule,
        now,
    );
    proof {
        assert(r == protocol_version_spec(
            next_epoch_protocol_version,
            client_protocol_version,
            voting_schedule.timestamp_to_version@,
            now,
        ));
    }
    r
}

} // verus!
