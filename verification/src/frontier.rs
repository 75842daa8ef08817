//! The crawl frontier: which players are to be visited, and when.

use crate::table::{lemma_count, rows_map, same_row, Table};
use crate::text::same_text;
use vstd::prelude::*;

verus! {

/// Members of the cohort.
pub const BUCKET_PRIORITY: u8 = 0;

/// Tasks of an older kind, which are drained and dropped.
pub const BUCKET_OTHER: u8 = 1;

/// A `last_visit_ms` that asks for a deep visit: a walk through the player's
/// whole match list, however old.
pub const DEEP_VISIT_MS: u64 = 1;

#[derive(Clone, Debug, PartialEq, Eq)]
pub struct FrontierTask {
    pub puuid: String,
    /// When the player's match list was last walked: 0 for never,
    /// [`DEEP_VISIT_MS`] where a deep visit is asked for.
    pub last_visit_ms: u64,
}

/// A queued task.
#[derive(Clone, Debug, PartialEq, Eq)]
pub struct Queued {
    pub platform: String,
    pub bucket: u8,
    pub due_ms: u64,
    pub task: FrontierTask,
}

pub struct TaskV {
    pub puuid: Seq<char>,
    pub last_visit_ms: u64,
}

pub struct QueuedV {
    pub platform: Seq<char>,
    pub bucket: u8,
    pub due_ms: u64,
    pub task: TaskV,
}

impl View for FrontierTask {
    type V = TaskV;

    open spec fn view(&self) -> TaskV {
        TaskV { puuid: self.puuid@, last_visit_ms: self.last_visit_ms }
    }
}

impl View for Queued {
    type V = QueuedV;

    open spec fn view(&self) -> QueuedV {
        QueuedV {
            platform: self.platform@,
            bucket: self.bucket,
            due_ms: self.due_ms,
            task: self.task@,
        }
    }
}

/// The queue after a push: a player who is queued in the same or a better
/// bucket stays where they are.
pub open spec fn pushed(queue: Map<u32, QueuedV>, player: u32, entry: QueuedV) -> Map<
    u32,
    QueuedV,
> {
    if queue.contains_key(player) && queue[player].bucket <= entry.bucket {
        queue
    } else {
        queue.insert(player, entry)
    }
}

/// The queue after the first `k` of a batch were pushed.
pub open spec fn pushed_batch(
    queue: Map<u32, QueuedV>,
    platform: Seq<char>,
    bucket: u8,
    due_ms: u64,
    items: Seq<(u32, TaskV)>,
) -> Map<u32, QueuedV>
    decreases items.len(),
{
    if items.len() == 0 {
        queue
    } else {
        let (player, task) = items.last();
        pushed(
            pushed_batch(queue, platform, bucket, due_ms, items.drop_last()),
            player,
            QueuedV { platform, bucket, due_ms, task },
        )
    }
}

/// A player's task on a platform that a pop looks at.
pub open spec fn poppable(entry: QueuedV, platform: Seq<char>) -> bool {
    entry.platform == platform && (entry.bucket == BUCKET_PRIORITY || entry.bucket
        == BUCKET_OTHER)
}

/// A player's task is due.
pub open spec fn is_due(
    queue: Map<u32, QueuedV>,
    platform: Seq<char>,
    now_ms: u64,
    player: u32,
) -> bool {
    queue.contains_key(player) && poppable(queue[player], platform) && queue[player].due_ms
        <= now_ms
}

/// The order of the queue: the better bucket first, then what is due earlier,
/// then the lower player id.
pub open spec fn goes_before(a: QueuedV, pa: u32, b: QueuedV, pb: u32) -> bool {
    a.bucket < b.bucket || (a.bucket == b.bucket && (a.due_ms < b.due_ms || (a.due_ms == b.due_ms
        && pa <= pb)))
}

/// The player whose due task is first.
pub open spec fn is_first_due(
    queue: Map<u32, QueuedV>,
    platform: Seq<char>,
    now_ms: u64,
    player: u32,
) -> bool {
    &&& is_due(queue, platform, now_ms, player)
    &&& forall|p: u32| #[trigger]
        is_due(queue, platform, now_ms, p) ==> goes_before(queue[player], player, queue[p], p)
}

/// The earliest time at which a task of a platform is due.
pub open spec fn is_next_due(
    queue: Map<u32, QueuedV>,
    platform: Seq<char>,
    res: Option<u64>,
) -> bool {
    match res {
        Some(due) => {
            &&& exists|p: u32|
                #[trigger] queue.contains_key(p) && poppable(queue[p], platform)
                    && queue[p].due_ms == due
            &&& forall|p: u32|
                #[trigger] queue.contains_key(p) && poppable(queue[p], platform) ==> due
                    <= queue[p].due_ms
        },
        None => forall|p: u32| #[trigger] queue.contains_key(p) ==> !poppable(queue[p], platform),
    }
}

/// The players with a priority task on a platform that is overdue by more than
/// `grace_ms`.
pub open spec fn overdue(
    queue: Map<u32, QueuedV>,
    platform: Seq<char>,
    now_ms: u64,
    grace_ms: u64,
) -> Set<u32> {
    queue.dom().filter(
        |p: u32|
            queue[p].platform == platform && queue[p].bucket == BUCKET_PRIORITY && now_ms
                - queue[p].due_ms > grace_ms,
    )
}

/// A cohort member's priority task, which a backfill makes a deep visit.
pub open spec fn resets(queue: Map<u32, QueuedV>, cohort: Set<u32>, player: u32) -> bool {
    queue[player].bucket == BUCKET_PRIORITY && cohort.contains(player)
}

/// The queue after a backfill reset at `now_ms`.
pub open spec fn backfilled(queue: Map<u32, QueuedV>, cohort: Set<u32>, now_ms: u64) -> Map<
    u32,
    QueuedV,
> {
    Map::new(
        |p: u32| queue.contains_key(p),
        |p: u32|
            if resets(queue, cohort, p) {
                deep_visit(queue[p], now_ms)
            } else {
                queue[p]
            },
    )
}

/// A task made a deep visit that is due at `now_ms`.
pub open spec fn deep_visit(entry: QueuedV, now_ms: u64) -> QueuedV {
    QueuedV {
        due_ms: now_ms,
        task: TaskV { last_visit_ms: DEEP_VISIT_MS, ..entry.task },
        ..entry
    }
}

/// Queued tasks, at most one for a player.
pub struct Frontier {
    rows: Table<u32, Queued>,
}

impl View for Frontier {
    type V = Map<u32, QueuedV>;

    closed spec fn view(&self) -> Map<u32, QueuedV> {
        self.rows@.map_values(|q: Queued| q@)
    }
}

impl Frontier {
    pub closed spec fn wf(&self) -> bool {
        self.rows.wf()
    }

    /// What was queued when the queue was last written out.
    pub closed spec fn saved(&self) -> Map<u32, QueuedV> {
        self.rows.saved().map_values(|q: Queued| q@)
    }

    /// The players whose tasks were touched since then.
    pub closed spec fn touched(&self) -> Seq<u32> {
        self.rows.touched()
    }

    /// Every task that differs from what was written out is marked.
    pub proof fn lemma_unsaved(&self, player: u32)
        requires
            self.wf(),
            !self.touched().contains(player),
        ensures
            same_row(self.saved(), self@, player),
    {
        self.rows.lemma_unsaved(player);
    }

    pub proof fn lemma_finite(&self)
        requires
            self.wf(),
        ensures
            self@.dom().finite(),
    {
        self.rows.lemma_finite();
        assert(self@.dom() =~= self.rows@.dom());
    }

    pub fn new() -> (res: Self)
        ensures
            res.wf(),
            res@ == Map::<u32, QueuedV>::empty(),
            res.saved() == Map::<u32, QueuedV>::empty(),
            res.touched() == Seq::<u32>::empty(),
    {
        let res = Frontier { rows: Table::new() };
        assert(res@ =~= Map::empty());
        assert(res.saved() =~= Map::empty());
        res
    }

    /// A queue of tasks that are stored already.
    pub fn from_rows(list: Vec<(u32, Queued)>) -> (res: Self)
        ensures
            res.wf(),
            res@ == rows_map(list@).map_values(|q: Queued| q@),
            res.saved() == res@,
            res.touched() == Seq::<u32>::empty(),
    {
        Frontier { rows: Table::from_rows(list) }
    }

    pub fn get(&self, player: u32) -> (res: Option<&Queued>)
        requires
            self.wf(),
        ensures
            match res {
                Some(q) => self@.contains_key(player) && q@ == self@[player],
                None => !self@.contains_key(player),
            },
    {
        self.rows.get(player)
    }

    /// Every queued player, once.
    pub fn players(&self) -> (res: Vec<u32>)
        requires
            self.wf(),
        ensures
            res@.to_set() == self@.dom(),
            res@.no_duplicates(),
    {
        assert(self@.dom() =~= self.rows@.dom());
        self.rows.keys()
    }

    /// The players whose tasks are to be written out.
    pub fn take_touched(&mut self) -> (res: Vec<u32>)
        requires
            old(self).wf(),
        ensures
            final(self).wf(),
            final(self)@ == old(self)@,
            final(self).saved() == old(self)@,
            final(self).touched() == Seq::<u32>::empty(),
            res@ == old(self).touched(),
    {
        self.rows.take_touched()
    }

    fn put(&mut self, player: u32, entry: Queued)
        requires
            old(self).wf(),
        ensures
            final(self).wf(),
            final(self)@ == old(self)@.insert(player, entry@),
            final(self).saved() == old(self).saved(),
    {
        let ghost was = self@;
        let ghost value = entry@;
        let _ = self.rows.put(player, entry);
        assert(self@ =~= was.insert(player, value));
    }

    /// Queues a task, or keeps the one that the player has if its bucket is no
    /// worse.
    pub fn push(&mut self, platform: &str, bucket: u8, due_ms: u64, player: u32, task: &FrontierTask)
        requires
            old(self).wf(),
        ensures
            final(self).wf(),
            final(self).saved() == old(self).saved(),
            final(self)@ == pushed(
                old(self)@,
                player,
                QueuedV { platform: platform@, bucket, due_ms, task: task@ },
            ),
    {
        if let Some(q) = self.get(player) {
            if q.bucket <= bucket {
                return;
            }
        }
        let task = FrontierTask { puuid: task.puuid.clone(), last_visit_ms: task.last_visit_ms };
        self.put(player, Queued { platform: platform.to_string(), bucket, due_ms, task });
    }

    /// Queues a batch of tasks, one after the other.
    pub fn push_batch(
        &mut self,
        platform: &str,
        bucket: u8,
        due_ms: u64,
        items: &Vec<(u32, FrontierTask)>,
    )
        requires
            old(self).wf(),
        ensures
            final(self).wf(),
            final(self).saved() == old(self).saved(),
            final(self)@ == pushed_batch(
                old(self)@,
                platform@,
                bucket,
                due_ms,
                items@.map_values(|it: (u32, FrontierTask)| (it.0, it.1@)),
            ),
    {
        let ghost all = items@.map_values(|it: (u32, FrontierTask)| (it.0, it.1@));
        let mut i: usize = 0;
        while i < items.len()
            invariant
                self.wf(),
                self.saved() == old(self).saved(),
                i <= items@.len(),
                all == items@.map_values(|it: (u32, FrontierTask)| (it.0, it.1@)),
                self@ == pushed_batch(old(self)@, platform@, bucket, due_ms, all.take(i as int)),
            decreases items@.len() - i,
        {
            let (player, task) = &items[i];
            self.push(platform, bucket, due_ms, *player, task);
            assert(all.take(i + 1).drop_last() =~= all.take(i as int));
            i = i + 1;
        }
        assert(all.take(i as int) =~= all);
    }

    fn first_due(&self, platform: &str, now_ms: u64) -> (res: Option<u32>)
        requires
            self.wf(),
        ensures
            match res {
                Some(player) => is_first_due(self@, platform@, now_ms, player),
                None => forall|p: u32| !#[trigger] is_due(self@, platform@, now_ms, p),
            },
    {
        let players = self.players();
        let mut best: Option<u32> = None;
        let mut best_bucket: u8 = 0;
        let mut best_due: u64 = 0;
        let mut i: usize = 0;
        while i < players.len()
            invariant
                self.wf(),
                i <= players@.len(),
                players@.to_set() == self@.dom(),
                match best {
                    Some(b) => {
                        &&& is_due(self@, platform@, now_ms, b)
                        &&& best_bucket == self@[b].bucket
                        &&& best_due == self@[b].due_ms
                        &&& forall|j: int|
                            0 <= j < i && is_due(
                                self@,
                                platform@,
                                now_ms,
                                #[trigger] players@[j],
                            ) ==> goes_before(self@[b], b, self@[players@[j]], players@[j])
                    },
                    None => forall|j: int|
                        0 <= j < i ==> !is_due(self@, platform@, now_ms, #[trigger] players@[j]),
                },
            decreases players@.len() - i,
        {
            let p: u32 = players[i];
            if let Some(q) = self.get(p) {
                let known = q.bucket == BUCKET_PRIORITY || q.bucket == BUCKET_OTHER;
                if known && q.due_ms <= now_ms && same_text(q.platform.as_str(), platform) {
                    assert(is_due(self@, platform@, now_ms, p));
                    let better = match best {
                        Some(b) => q.bucket < best_bucket || (q.bucket == best_bucket && (q.due_ms
                            < best_due || (q.due_ms == best_due && p < b))),
                        None => true,
                    };
                    if better {
                        best = Some(p);
                        best_bucket = q.bucket;
                        best_due = q.due_ms;
                    }
                }
            }
            i = i + 1;
        }
        proof {
            assert forall|p: u32| #[trigger] is_due(self@, platform@, now_ms, p) implies best
                is Some && goes_before(self@[best->0], best->0, self@[p], p) by {
                assert(players@.to_set().contains(p));
                let j = choose|j: int| 0 <= j < players@.len() && players@[j] == p;
                assert(players@[j] == p);
            }
        }
        best
    }

    /// Takes out the first task that is due on a platform.
    pub fn pop_due(&mut self, platform: &str, now_ms: u64) -> (res: Option<(u8, u32, FrontierTask)>)
        requires
            old(self).wf(),
        ensures
            final(self).wf(),
            final(self).saved() == old(self).saved(),
            match res {
                Some((bucket, player, task)) => {
                    &&& is_first_due(old(self)@, platform@, now_ms, player)
                    &&& bucket == old(self)@[player].bucket
                    &&& task@ == old(self)@[player].task
                    &&& final(self)@ == old(self)@.remove(player)
                },
                None => {
                    &&& forall|p: u32| !#[trigger] is_due(old(self)@, platform@, now_ms, p)
                    &&& final(self)@ == old(self)@
                },
            },
    {
        let player: u32 = match self.first_due(platform, now_ms) {
            Some(player) => player,
            None => {
                return None;
            },
        };
        let ghost was = self@;
        match self.rows.take(player) {
            Some(q) => {
                assert(self@ =~= was.remove(player));
                Some((q.bucket, player, q.task))
            },
            None => {
                assert(false);
                None
            },
        }
    }

    /// How many priority tasks of a platform are overdue by more than
    /// `grace_ms`, counted up to `cap`.
    pub fn overdue_count(&self, platform: &str, now_ms: u64, grace_ms: u64, cap: u64) -> (res: u64)
        requires
            self.wf(),
        ensures
            ({
                let n = overdue(self@, platform@, now_ms, grace_ms).len();
                res == (if n <= cap {
                    n
                } else {
                    cap as nat
                })
            }),
    {
        if cap == 0 {
            return 0;
        }
        let players = self.players();
        let ghost f = |p: u32|
            self@[p].platform == platform@ && self@[p].bucket == BUCKET_PRIORITY && now_ms
                - self@[p].due_ms > grace_ms;
        let mut n: u64 = 0;
        let mut i: usize = 0;
        proof {
            assert(players@.take(0).to_set().filter(f) =~= Set::empty());
            assert(players@.take(players@.len() as int) =~= players@);
            assert(overdue(self@, platform@, now_ms, grace_ms) =~= players@.to_set().filter(f));
            self.lemma_finite();
            self@.dom().lemma_len_filter(f);
        }
        while i < players.len()
            invariant
                self.wf(),
                i <= players@.len(),
                players@.no_duplicates(),
                players@.to_set() == self@.dom(),
                f == (|p: u32|
                    self@[p].platform == platform@ && self@[p].bucket == BUCKET_PRIORITY
                        && now_ms - self@[p].due_ms > grace_ms),
                cap > 0,
                n == players@.take(i as int).to_set().filter(f).len(),
                n < cap,
                n <= i,
                self@.dom().filter(f).finite(),
            decreases players@.len() - i,
        {
            let p: u32 = players[i];
            proof {
                lemma_count(players@, f, i as int);
                assert(players@.to_set().contains(p));
            }
            if let Some(q) = self.get(p) {
                if q.bucket == BUCKET_PRIORITY && now_ms > q.due_ms && now_ms - q.due_ms > grace_ms
                    && same_text(q.platform.as_str(), platform) {
                    n = n + 1;
                    if n >= cap {
                        proof {
                            let part = players@.take(i + 1).to_set().filter(f);
                            assert(part.subset_of(self@.dom().filter(f))) by {
                                assert forall|x: u32| part.contains(x) implies self@.dom().filter(
                                    f,
                                ).contains(x) by {
                                    let sub = players@.take(i + 1);
                                    let j = choose|j: int| 0 <= j < sub.len() && sub[j] == x;
                                    assert(players@[j] == x);
                                    assert(players@.to_set().contains(x));
                                }
                            }
                            vstd::set_lib::lemma_len_subset(part, self@.dom().filter(f));
                            assert(overdue(self@, platform@, now_ms, grace_ms) =~= self@.dom().filter(f));
                        }
                        return n;
                    }
                }
            }
            i = i + 1;
        }
        n
    }

    /// When the next task of a platform is due.
    pub fn next_due(&self, platform: &str) -> (res: Option<u64>)
        requires
            self.wf(),
        ensures
            is_next_due(self@, platform@, res),
    {
        let players = self.players();
        let mut best: Option<u64> = None;
        let mut i: usize = 0;
        while i < players.len()
            invariant
                self.wf(),
                i <= players@.len(),
                players@.to_set() == self@.dom(),
                match best {
                    Some(due) => {
                        &&& exists|p: u32|
                            #[trigger] self@.contains_key(p) && poppable(self@[p], platform@)
                                && self@[p].due_ms == due
                        &&& forall|j: int|
                            0 <= j < i && poppable(self@[#[trigger] players@[j]], platform@) ==> due
                                <= self@[players@[j]].due_ms
                    },
                    None => forall|j: int|
                        0 <= j < i ==> !poppable(self@[#[trigger] players@[j]], platform@),
                },
            decreases players@.len() - i,
        {
            let p: u32 = players[i];
            assert(players@.to_set().contains(p));
            if let Some(q) = self.get(p) {
                let known = q.bucket == BUCKET_PRIORITY || q.bucket == BUCKET_OTHER;
                if known && same_text(q.platform.as_str(), platform) {
                    assert(poppable(self@[p], platform@));
                    let better = match best {
                        Some(due) => q.due_ms < due,
                        None => true,
                    };
                    if better {
                        best = Some(q.due_ms);
                        assert(self@.contains_key(p));
                    }
                }
            }
            i = i + 1;
        }
        proof {
            assert forall|p: u32|
                #[trigger] self@.contains_key(p) && poppable(self@[p], platform@) implies best
                is Some && best->0 <= self@[p].due_ms by {
                assert(players@.to_set().contains(p));
                let j = choose|j: int| 0 <= j < players@.len() && players@[j] == p;
                assert(players@[j] == p);
            }
        }
        best
    }

    /// Makes every priority task of a cohort member a deep visit that is due
    /// at once, and says how many there were.
    pub fn backfill_reset<V>(&mut self, cohort: &Table<u32, V>, now_ms: u64) -> (res: u64)
        requires
            old(self).wf(),
            cohort.wf(),
        ensures
            final(self).wf(),
            final(self).saved() == old(self).saved(),
            final(self)@ == backfilled(old(self)@, cohort@.dom(), now_ms),
            res == old(self)@.dom().filter(|p: u32| resets(old(self)@, cohort@.dom(), p)).len(),
    {
        let players = self.players();
        let ghost was = self@;
        let ghost members = cohort@.dom();
        let ghost f = |p: u32| resets(was, members, p);
        let mut n: u64 = 0;
        let mut i: usize = 0;
        proof {
            assert(players@.take(0).to_set().filter(f) =~= Set::empty());
            assert(players@.take(players@.len() as int) =~= players@);
        }
        while i < players.len()
            invariant
                self.wf(),
                cohort.wf(),
                members == cohort@.dom(),
                self.saved() == old(self).saved(),
                i <= players@.len(),
                players@.no_duplicates(),
                players@.to_set() == was.dom(),
                f == (|p: u32| resets(was, members, p)),
                self@.dom() == was.dom(),
                forall|j: int|
                    0 <= j < i ==> self@[#[trigger] players@[j]] == backfilled(
                        was,
                        members,
                        now_ms,
                    )[players@[j]],
                forall|j: int|
                    i <= j < players@.len() ==> self@[#[trigger] players@[j]] == was[players@[j]],
                n == players@.take(i as int).to_set().filter(f).len(),
                n <= i,
            decreases players@.len() - i,
        {
            let p: u32 = players[i];
            proof {
                lemma_count(players@, f, i as int);
                assert(players@.to_set().contains(p));
            }
            let next: Option<Queued> = match self.get(p) {
                Some(q) => if q.bucket == BUCKET_PRIORITY && cohort.contains(p) {
                    Some(
                        Queued {
                            platform: q.platform.clone(),
                            bucket: BUCKET_PRIORITY,
                            due_ms: now_ms,
                            task: FrontierTask {
                                puuid: q.task.puuid.clone(),
                                last_visit_ms: DEEP_VISIT_MS,
                            },
                        },
                    )
                } else {
                    None
                },
                None => None,
            };
            let ghost before = self@;
            if let Some(entry) = next {
                self.put(p, entry);
                n = n + 1;
                assert(self@.dom() =~= was.dom());
            }
            assert(self@[p] == backfilled(was, members, now_ms)[p]);
            i = i + 1;
        }
        proof {
            assert forall|p: u32| #[trigger] self@.contains_key(p) implies self@[p] == backfilled(
                was,
                members,
                now_ms,
            )[p] by {
                assert(players@.to_set().contains(p));
                let j = choose|j: int| 0 <= j < players@.len() && players@[j] == p;
                assert(players@[j] == p);
            }
            assert(self@ =~= backfilled(was, members, now_ms));
            assert(was.dom().filter(f) =~= was.dom().filter(
                |p: u32| resets(was, cohort@.dom(), p),
            ));
        }
        n
    }
}

/// Popping gives the tasks that are due in the order of the queue: what is
/// popped next never goes before what was popped.
pub proof fn law_pop_order(
    queue: Map<u32, QueuedV>,
    platform: Seq<char>,
    now_ms: u64,
    first: u32,
    second: u32,
)
    requires
        is_first_due(queue, platform, now_ms, first),
        is_first_due(queue.remove(first), platform, now_ms, second),
    ensures
        goes_before(queue[first], first, queue[second], second),
        first != second,
{
    assert(is_due(queue.remove(first), platform, now_ms, second));
    assert(is_due(queue, platform, now_ms, second));
}

/// The first due task is the only one that is first.
pub proof fn law_first_is_unique(
    queue: Map<u32, QueuedV>,
    platform: Seq<char>,
    now_ms: u64,
    a: u32,
    b: u32,
)
    requires
        is_first_due(queue, platform, now_ms, a),
        is_first_due(queue, platform, now_ms, b),
    ensures
        a == b,
{
    assert(is_due(queue, platform, now_ms, a));
    assert(is_due(queue, platform, now_ms, b));
}

/// Queuing a player again in a bucket that is no better changes nothing.
pub proof fn law_push_keeps_better(queue: Map<u32, QueuedV>, player: u32, a: QueuedV, b: QueuedV)
    requires
        a.bucket <= b.bucket,
    ensures
        pushed(pushed(queue, player, a), player, b) == pushed(queue, player, a),
{
}

/// After a backfill reset every cohort member with a priority task is due at
/// once for a deep visit, and everyone else's task is as it was.
pub proof fn law_backfill(
    queue: Map<u32, QueuedV>,
    cohort: Set<u32>,
    now_ms: u64,
    player: u32,
)
    requires
        queue.contains_key(player),
    ensures
        ({
            let after = backfilled(queue, cohort, now_ms);
            &&& after.dom() == queue.dom()
            &&& resets(queue, cohort, player) ==> is_due(
                after,
                queue[player].platform,
                now_ms,
                player,
            ) && after[player].task.last_visit_ms == DEEP_VISIT_MS
            &&& !resets(queue, cohort, player) ==> after[player] == queue[player]
            &&& backfilled(after, cohort, now_ms) == after
        }),
{
    let after = backfilled(queue, cohort, now_ms);
    assert(after.dom() =~= queue.dom());
    assert(backfilled(after, cohort, now_ms) =~= after);
}

} // verus!
