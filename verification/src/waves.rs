//! Waves of enemies: when they are sent, where their enemies enter, and when
//! each enemy spawns.

use vstd::prelude::*;
use vstd::multiset::Multiset;

verus! {

broadcast use vstd::seq_lib::group_to_multiset_ensures, vstd::multiset::group_multiset_axioms;

pub const TICKS_PER_SECOND: u32 = 60;

pub const SECONDS_PER_WAVE: u32 = 20;

pub const TICKS_PER_WAVE: u32 = TICKS_PER_SECOND * SECONDS_PER_WAVE;

pub const TICKS_BETWEEN_SPAWNS: u32 = 21;

pub const TICKS_TILL_FIRST_WAVE: u32 = 180;

#[derive(Clone, Copy, PartialEq, Eq, Structural, Debug)]
pub enum Enemy {
    Circle,
    Triangle,
    Square,
}

impl Default for Enemy {
    fn default() -> (e: Self)
        ensures
            e == Enemy::Circle,
    {
        Enemy::Circle
    }
}

/// An enemy waiting to spawn at an entrance.
#[derive(Clone, Copy, PartialEq, Eq, Structural, Debug)]
pub struct QueuedEnemy {
    pub true_row: usize,
    pub true_col: usize,
    pub spawn_tick: u32,
    pub enemy_type: Enemy,
}

/// `size` enemies of one kind.
#[derive(Clone, Copy, PartialEq, Eq, Structural, Debug)]
pub struct Group {
    pub size: u32,
    pub kind: Enemy,
}

#[derive(Debug)]
pub struct Wave {
    pub group: Vec<Group>,
}

impl Clone for Wave {
    fn clone(&self) -> (wave: Self)
        ensures
            wave.group@ == self.group@,
    {
        Wave { group: self.group.clone() }
    }
}

pub struct WaveSpawner {
    pub entrances: Vec<(usize, usize)>,
    pub ticks_till_next_wave: u32,
    pub next_wave_index: usize,
    /// Enemies waiting to spawn, earliest spawn tick first.
    pub queued_enemies: Vec<QueuedEnemy>,
}

/// The queue is ordered by spawn tick.
pub open spec fn by_spawn_tick(queue: Seq<QueuedEnemy>) -> bool {
    forall|i: int, j: int|
        0 <= i <= j < queue.len() ==> #[trigger] queue[i].spawn_tick <= #[trigger] queue[j].spawn_tick
}

impl WaveSpawner {
    /// The spawner's queue is ordered by spawn tick, so the next enemy to
    /// spawn is at its front.
    pub open spec fn wf(&self) -> bool {
        by_spawn_tick(self.queued_enemies@)
    }

    pub fn new(entrances: Vec<(usize, usize)>) -> (spawner: WaveSpawner)
        ensures
            spawner.wf(),
            spawner.entrances@ == entrances@,
            spawner.ticks_till_next_wave == TICKS_TILL_FIRST_WAVE,
            spawner.next_wave_index == 0,
            spawner.queued_enemies@.len() == 0,
    {
        WaveSpawner {
            entrances,
            ticks_till_next_wave: TICKS_TILL_FIRST_WAVE,
            next_wave_index: 0,
            queued_enemies: Vec::new(),
        }
    }
}

impl Default for WaveSpawner {
    fn default() -> (spawner: Self)
        ensures
            spawner.wf(),
            spawner.entrances@.len() == 0,
            spawner.ticks_till_next_wave == 0,
            spawner.next_wave_index == 0,
            spawner.queued_enemies@.len() == 0,
    {
        WaveSpawner {
            entrances: Vec::new(),
            ticks_till_next_wave: 0,
            next_wave_index: 0,
            queued_enemies: Vec::new(),
        }
    }
}

/// The kind of every enemy of the groups, group after group.
pub open spec fn enemy_kinds(groups: Seq<Group>) -> Seq<Enemy>
    decreases groups.len(),
{
    if groups.len() == 0 {
        Seq::empty()
    } else {
        enemy_kinds(groups.drop_last()) + Seq::new(
            groups.last().size as nat,
            |i: int| groups.last().kind,
        )
    }
}

/// The delay after which the `k`-th enemy of a wave spawns, computed in
/// machine arithmetic as the spawner does.
pub open spec fn spawn_delay(k: int, entrance_count: int) -> int {
    ((k / entrance_count) as u32) * TICKS_BETWEEN_SPAWNS
}

/// The `k`-th enemy of a wave sent at `tick`: it enters at entrance
/// `k % n` (of `n`) and spawns after `k / n` rounds.
pub open spec fn wave_enemy(
    entrances: Seq<(usize, usize)>,
    tick: u32,
    k: int,
    kind: Enemy,
) -> QueuedEnemy {
    let entrance = entrances[k % entrances.len() as int];
    QueuedEnemy {
        true_row: entrance.0,
        true_col: entrance.1,
        spawn_tick: (tick + spawn_delay(k, entrances.len() as int)) as u32,
        enemy_type: kind,
    }
}

/// The enemies of a wave sent at `tick`, in the order of its groups.
pub open spec fn wave_enemies(wave: Seq<Group>, entrances: Seq<(usize, usize)>, tick: u32) -> Seq<
    QueuedEnemy,
> {
    let kinds = enemy_kinds(wave);
    Seq::new(kinds.len(), |k: int| wave_enemy(entrances, tick, k, kinds[k]))
}

/// A wave sent at `tick` can be queued: its enemies have entrances to enter
/// at, and their spawn ticks fit the tick counter.
pub open spec fn can_queue(wave: Seq<Group>, entrances: Seq<(usize, usize)>, tick: u32) -> bool {
    let count = enemy_kinds(wave).len();
    &&& count <= usize::MAX
    &&& count > 0 ==> entrances.len() > 0
    &&& forall|k: int|
        0 <= k < count ==> #[trigger] spawn_delay(k, entrances.len() as int) <= u32::MAX && tick
            + spawn_delay(k, entrances.len() as int) <= u32::MAX
}

/// The number of enemies of a wave, or `None` where it does not fit a
/// `usize`.
fn enemy_count(wave: &[Group]) -> (count: Option<usize>)
    ensures
        count matches Some(c) ==> c == enemy_kinds(wave@).len(),
        count is None ==> enemy_kinds(wave@).len() > usize::MAX,
{
    let mut total: usize = 0;
    let mut g: usize = 0;
    while g < wave.len()
        invariant
            g <= wave@.len(),
            total == enemy_kinds(wave@.take(g as int)).len(),
        decreases wave@.len() - g,
    {
        proof {
            lemma_kinds_prefix(wave@, g as int);
        }
        let size: usize = wave[g].size as usize;
        if total > usize::MAX - size {
            proof {
                lemma_kinds_prefix_len(wave@, g + 1);
            }
            return None;
        }
        total = total + size;
        g = g + 1;
    }
    assert(wave@.take(wave@.len() as int) =~= wave@);
    Some(total)
}

/// Whether a wave sent at `tick` can be queued at these entrances: its
/// enemies have entrances to enter at, and their spawn ticks fit the tick
/// counter.
pub fn wave_fits(wave: &[Group], entrances: &[(usize, usize)], tick: u32) -> (b: bool)
    ensures
        b == can_queue(wave@, entrances@, tick),
{
    let ghost kinds = enemy_kinds(wave@);
    let n: usize = entrances.len();
    let count: usize = match enemy_count(wave) {
        Some(count) => count,
        None => {
            return false;
        },
    };
    if count == 0 {
        return true;
    }
    if n == 0 {
        return false;
    }
    let last_round: usize = (count - 1) / n;
    if last_round > u32::MAX as usize {
        proof {
            let k: int = u32::MAX as int * n as int;
            assert(k <= count - 1) by (nonlinear_arith)
                requires
                    (count - 1) / (n as int) > u32::MAX,
                    n > 0,
                    k == u32::MAX as int * n as int,
                    count >= 1,
            ;
            vstd::arithmetic::div_mod::lemma_div_multiples_vanish(u32::MAX as int, n as int);
            assert((n as int * u32::MAX as int) / (n as int) == u32::MAX);
            assert(k / (n as int) == u32::MAX) by (nonlinear_arith)
                requires
                    (n as int * u32::MAX as int) / (n as int) == u32::MAX,
                    k == u32::MAX as int * n as int,
            ;
            assert(spawn_delay(k, n as int) > u32::MAX);
        }
        return false;
    }
    let last_delay: u64 = last_round as u64 * TICKS_BETWEEN_SPAWNS as u64;
    let fits: bool = tick as u64 + last_delay <= u32::MAX as u64;
    proof {
        assert(spawn_delay(count - 1, n as int) == last_delay);
        if fits {
            assert forall|k: int| 0 <= k < count implies #[trigger] spawn_delay(k, n as int)
                <= u32::MAX && tick + spawn_delay(k, n as int) <= u32::MAX by {
                vstd::arithmetic::div_mod::lemma_div_is_ordered(k, count - 1, n as int);
                assert(0 <= k / (n as int)) by (nonlinear_arith)
                    requires
                        0 <= k,
                        n > 0,
                ;
                assert((k / (n as int)) * 21 <= last_round * 21) by (nonlinear_arith)
                    requires
                        0 <= k / (n as int) <= last_round,
                ;
            }
        } else {
            assert(tick + spawn_delay(count - 1, n as int) > u32::MAX);
        }
    }
    fits
}

/// Insert `enemy` after every queued enemy that spawns no later.
fn enqueue(queue: &mut Vec<QueuedEnemy>, enemy: QueuedEnemy)
    requires
        by_spawn_tick(old(queue)@),
    ensures
        by_spawn_tick(final(queue)@),
        final(queue)@.to_multiset() == old(queue)@.to_multiset().insert(enemy),
{
    let mut pos: usize = 0;
    while pos < queue.len() && queue[pos].spawn_tick <= enemy.spawn_tick
        invariant
            pos <= queue@.len(),
            queue@ == old(queue)@,
            by_spawn_tick(queue@),
            forall|i: int| 0 <= i < pos ==> #[trigger] queue@[i].spawn_tick <= enemy.spawn_tick,
        decreases queue@.len() - pos,
    {
        pos = pos + 1;
    }
    let ghost before = queue@;
    queue.insert(pos, enemy);
    proof {
        before.insert_ensures(pos as int, enemy);
        assert(queue@.remove(pos as int) =~= before);
        assert(queue@[pos as int] == enemy);
        assert(queue@.to_multiset().count(enemy) > 0);
        assert(queue@.to_multiset() =~= before.to_multiset().insert(enemy));
    }
}

impl WaveSpawner {
    /// Queue the enemies of `wave`, sent at `tick`: they take the entrances
    /// in turn, and each round of them spawns `TICKS_BETWEEN_SPAWNS` after
    /// the one before.
    pub fn queue_wave(&mut self, tick: u32, wave: &Wave)
        requires
            old(self).wf(),
            can_queue(wave.group@, old(self).entrances@, tick),
        ensures
            final(self).wf(),
            final(self).entrances@ == old(self).entrances@,
            final(self).ticks_till_next_wave == old(self).ticks_till_next_wave,
            final(self).next_wave_index == old(self).next_wave_index,
            final(self).queued_enemies@.to_multiset() == old(self).queued_enemies@.to_multiset().add(
                wave_enemies(wave.group@, old(self).entrances@, tick).to_multiset(),
            ),
    {
        let ghost all = wave_enemies(wave.group@, self.entrances@, tick);
        let ghost start = self.queued_enemies@.to_multiset();
        let mut i: usize = 0;
        let mut g: usize = 0;
        while g < wave.group.len()
            invariant
                self.wf(),
                self.entrances@ == old(self).entrances@,
                self.ticks_till_next_wave == old(self).ticks_till_next_wave,
                self.next_wave_index == old(self).next_wave_index,
                can_queue(wave.group@, self.entrances@, tick),
                all == wave_enemies(wave.group@, self.entrances@, tick),
                g <= wave.group@.len(),
                i == enemy_kinds(wave.group@.take(g as int)).len(),
                self.queued_enemies@.to_multiset() == start.add(all.take(i as int).to_multiset()),
            decreases wave.group@.len() - g,
        {
            let group = wave.group[g];
            let mut s: u32 = 0;
            while s < group.size
                invariant
                    self.wf(),
                    self.entrances@ == old(self).entrances@,
                    self.ticks_till_next_wave == old(self).ticks_till_next_wave,
                    self.next_wave_index == old(self).next_wave_index,
                    can_queue(wave.group@, self.entrances@, tick),
                    all == wave_enemies(wave.group@, self.entrances@, tick),
                    g < wave.group@.len(),
                    group == wave.group@[g as int],
                    s <= group.size,
                    i == enemy_kinds(wave.group@.take(g as int)).len() + s,
                    self.queued_enemies@.to_multiset() == start.add(all.take(i as int).to_multiset()),
                decreases group.size - s,
            {
                proof {
                    let kinds = enemy_kinds(wave.group@);
                    let before = enemy_kinds(wave.group@.take(g as int));
                    let upto = enemy_kinds(wave.group@.take(g + 1));
                    lemma_kinds_prefix(wave.group@, g as int);
                    lemma_kinds_prefix_len(wave.group@, g as int + 1);
                    assert(upto[i as int] == group.kind);
                    assert(kinds[i as int] == group.kind);
                    assert(all.len() == kinds.len());
                    assert(i < all.len());
                    assert(spawn_delay(i as int, self.entrances@.len() as int) <= u32::MAX);
                }
                let entrance_i: usize = i % self.entrances.len();
                let tick_delay: u32 = #[verifier::truncate] ((i / self.entrances.len()) as u32)
                    * TICKS_BETWEEN_SPAWNS;
                i = i + 1;

                let (true_row, true_col) = self.entrances[entrance_i];
                let enemy = QueuedEnemy {
                    true_row,
                    true_col,
                    spawn_tick: tick + tick_delay,
                    enemy_type: group.kind,
                };
                proof {
                    assert(enemy == all[i - 1]);
                    assert(all.take(i as int) =~= all.take(i - 1).push(enemy));
                }
                enqueue(&mut self.queued_enemies, enemy);
                s = s + 1;
            }
            proof {
                lemma_kinds_prefix(wave.group@, g as int);
            }
            g = g + 1;
        }
        proof {
            assert(wave.group@.take(wave.group@.len() as int) =~= wave.group@);
            assert(all.take(i as int) =~= all);
        }
    }
}

proof fn lemma_kinds_prefix(groups: Seq<Group>, g: int)
    requires
        0 <= g < groups.len(),
    ensures
        enemy_kinds(groups.take(g + 1)) == enemy_kinds(groups.take(g)) + Seq::new(
            groups[g].size as nat,
            |i: int| groups[g].kind,
        ),
{
    assert(groups.take(g + 1).drop_last() =~= groups.take(g));
}

proof fn lemma_kinds_prefix_len(groups: Seq<Group>, g: int)
    requires
        0 <= g <= groups.len(),
    ensures
        enemy_kinds(groups.take(g)).len() <= enemy_kinds(groups).len(),
        enemy_kinds(groups.take(g)) == enemy_kinds(groups).take(enemy_kinds(groups.take(g)).len() as int),
    decreases groups.len() - g,
{
    if g < groups.len() {
        lemma_kinds_prefix_len(groups, g + 1);
        lemma_kinds_prefix(groups, g);
        assert(enemy_kinds(groups.take(g)) =~= enemy_kinds(groups.take(g + 1)).take(
            enemy_kinds(groups.take(g)).len() as int,
        ));
    } else {
        assert(groups.take(g) =~= groups);
    }
}

impl WaveSpawner {
    /// This tick sends the next wave: the countdown has run out and a wave is
    /// left among `wave_count`.
    pub open spec fn starts_wave(&self, wave_count: int) -> bool {
        self.ticks_till_next_wave == 0 && self.next_wave_index < wave_count
    }

    /// The queue after a tick has sent the next wave (if it does), before any
    /// enemy spawns.
    pub open spec fn queue_after_sending(&self, waves: Seq<Wave>, tick: u32) -> Multiset<
        QueuedEnemy,
    > {
        if self.starts_wave(waves.len() as int) {
            self.queued_enemies@.to_multiset().add(
                wave_enemies(
                    waves[self.next_wave_index as int].group@,
                    self.entrances@,
                    tick,
                ).to_multiset(),
            )
        } else {
            self.queued_enemies@.to_multiset()
        }
    }

    /// One tick of the spawner: count down to the next wave, send it when the
    /// countdown runs out, then hand out the enemies whose spawn tick is
    /// `tick`, earliest in the queue first. An enemy left in the queue with an
    /// earlier spawn tick holds back those behind it.
    pub fn spawn_mobs(&mut self, waves: &[Wave], tick: u32) -> (spawned: Vec<QueuedEnemy>)
        requires
            old(self).wf(),
            old(self).starts_wave(waves@.len() as int) ==> can_queue(
                waves@[old(self).next_wave_index as int].group@,
                old(self).entrances@,
                tick,
            ),
        ensures
            final(self).wf(),
            final(self).entrances@ == old(self).entrances@,
            old(self).starts_wave(waves@.len() as int) ==> {
                &&& final(self).ticks_till_next_wave == TICKS_PER_WAVE - 1
                &&& final(self).next_wave_index == old(self).next_wave_index + 1
            },
            !old(self).starts_wave(waves@.len() as int) ==> {
                &&& final(self).ticks_till_next_wave == (if old(self).ticks_till_next_wave == 0 {
                    0
                } else {
                    old(self).ticks_till_next_wave - 1
                })
                &&& final(self).next_wave_index == old(self).next_wave_index
            },
            spawned@.to_multiset().add(final(self).queued_enemies@.to_multiset())
                == old(self).queue_after_sending(waves@, tick),
            forall|i: int| 0 <= i < spawned@.len() ==> #[trigger] spawned@[i].spawn_tick == tick,
            spawned@.len() > 0 ==> forall|i: int|
                0 <= i < final(self).queued_enemies@.len()
                    ==> #[trigger] final(self).queued_enemies@[i].spawn_tick > tick,
            forall|i: int|
                0 <= i < final(self).queued_enemies@.len()
                    && #[trigger] final(self).queued_enemies@[i].spawn_tick == tick ==> {
                    &&& spawned@.len() == 0
                    &&& final(self).queued_enemies@[0].spawn_tick < tick
                },
            // Enemies wait only for a wave that has been sent, so the wave
            // still spawning is the one before `next_wave_index`.
            (old(self).queued_enemies@.len() > 0 ==> old(self).next_wave_index > 0) ==> (
            final(self).queued_enemies@.len() > 0 ==> final(self).next_wave_index > 0),
    {
        // Queue waves
        if self.ticks_till_next_wave == 0 {
            if self.next_wave_index < waves.len() {
                let wave = &waves[self.next_wave_index];
                self.ticks_till_next_wave = TICKS_PER_WAVE - 1;
                self.next_wave_index = self.next_wave_index + 1;
                self.queue_wave(tick, wave);
            }
        } else {
            self.ticks_till_next_wave = self.ticks_till_next_wave - 1;
        }

        // Spawn queued mobs
        let ghost sent = self.queued_enemies@.to_multiset();
        let ghost sent_entrances = self.entrances@;
        let ghost countdown = self.ticks_till_next_wave;
        let ghost next = self.next_wave_index;
        let mut spawned: Vec<QueuedEnemy> = Vec::new();
        while self.queued_enemies.len() > 0 && self.queued_enemies[0].spawn_tick == tick
            invariant
                self.wf(),
                self.entrances@ == sent_entrances,
                self.ticks_till_next_wave == countdown,
                self.next_wave_index == next,
                spawned@.to_multiset().add(self.queued_enemies@.to_multiset()) == sent,
                forall|i: int| 0 <= i < spawned@.len() ==> #[trigger] spawned@[i].spawn_tick == tick,
                spawned@.len() > 0 ==> forall|i: int|
                    0 <= i < self.queued_enemies@.len()
                        ==> #[trigger] self.queued_enemies@[i].spawn_tick >= tick,
            decreases self.queued_enemies@.len(),
        {
            let ghost before = self.queued_enemies@;
            let ghost before_spawned = spawned@;
            let queued_enemy = self.queued_enemies.remove(0);
            spawned.push(queued_enemy);
            proof {
                assert(before.remove(0) =~= self.queued_enemies@);
                assert(self.queued_enemies@.to_multiset() =~= before.to_multiset().remove(
                    queued_enemy,
                ));
                assert(before.to_multiset().count(queued_enemy) > 0);
                assert(spawned@.to_multiset().add(self.queued_enemies@.to_multiset()) =~= sent);
                assert forall|i: int| 0 <= i < self.queued_enemies@.len() implies #[trigger]
                    self.queued_enemies@[i].spawn_tick >= tick by {
                    assert(before[0].spawn_tick <= before[i + 1].spawn_tick);
                }
            }
        }
        proof {
            if self.queued_enemies@.len() > 0 {
                assert forall|i: int| 0 <= i < self.queued_enemies@.len() implies #[trigger]
                    self.queued_enemies@[i].spawn_tick >= self.queued_enemies@[0].spawn_tick by {}
                if next == old(self).next_wave_index {
                    // No wave was sent: what is left was queued before.
                    let e = self.queued_enemies@[0];
                    assert(self.queued_enemies@.to_multiset().count(e) > 0);
                    assert(sent.count(e) > 0);
                    assert(old(self).queued_enemies@.to_multiset().count(e) > 0);
                }
            }
        }
        spawned
    }

    /// Index of the next wave shown on the game's sidebar.
    /// If enemies are still spawning, this index will be the index of the
    /// still-spawning wave.
    /// If no enemies are spawning, this index will be the index of the next
    /// wave to spawn.
    /// If the last wave has finished spawning, return -1.
    pub fn next_wave_index(&self, wave_count: usize) -> (index: i32)
        ensures
            index == (if self.queued_enemies@.len() > 0 {
                (if self.next_wave_index > 0 {
                    self.next_wave_index - 1
                } else {
                    0
                }) as i32
            } else if self.next_wave_index < wave_count {
                self.next_wave_index as i32
            } else {
                -1i32
            }),
    {
        if self.queued_enemies.len() > 0 {
            #[verifier::truncate]
            (self.next_wave_index.saturating_sub(1) as i32)
        } else if self.next_wave_index < wave_count {
            #[verifier::truncate]
            (self.next_wave_index as i32)
        } else {
            -1
        }
    }

    /// Number of ticks until the next wave spawns, or 0 if a wave is currently
    /// spawning or no more waves remain.
    pub fn ticks_till_next_wave(&self, wave_count: usize) -> (ticks: u32)
        ensures
            ticks == (if self.queued_enemies@.len() > 0 {
                0
            } else if self.next_wave_index < wave_count {
                self.ticks_till_next_wave
            } else {
                0
            }),
    {
        if self.queued_enemies.len() > 0 {
            0
        } else if self.next_wave_index < wave_count {
            self.ticks_till_next_wave
        } else {
            0
        }
    }

    /// Send the next wave on the coming tick.
    pub fn send_next_wave(&mut self)
        ensures
            final(self).ticks_till_next_wave == 0,
            final(self).entrances@ == old(self).entrances@,
            final(self).next_wave_index == old(self).next_wave_index,
            final(self).queued_enemies@ == old(self).queued_enemies@,
    {
        self.ticks_till_next_wave = 0;
    }

    /// Whether the coming tick sends a wave, among `wave_count` waves; the
    /// game saves its state at that moment.
    pub fn is_wave_start(&self, wave_count: usize) -> (b: bool)
        ensures
            b == self.starts_wave(wave_count as int),
    {
        self.ticks_till_next_wave == 0 && self.next_wave_index < wave_count
    }
}

/// A wave's enemies take the entrances in turn: among `n` distinct
/// entrances, two enemies of the same round (the same `k / n`) enter at
/// different entrances, so each round of `n` enemies uses every entrance
/// once; the `k`-th enemy spawns `k / n` rounds after the wave is sent.
pub proof fn lemma_rounds_use_every_entrance(
    wave: Seq<Group>,
    entrances: Seq<(usize, usize)>,
    tick: u32,
    k1: int,
    k2: int,
)
    requires
        entrances.len() > 0,
        entrances.no_duplicates(),
        0 <= k1 < k2 < wave_enemies(wave, entrances, tick).len(),
        k1 / (entrances.len() as int) == k2 / (entrances.len() as int),
    ensures
        ({
            let e1 = wave_enemies(wave, entrances, tick)[k1];
            let e2 = wave_enemies(wave, entrances, tick)[k2];
            &&& (e1.true_row, e1.true_col) != (e2.true_row, e2.true_col)
            &&& entrances.contains((e1.true_row, e1.true_col))
            &&& e1.spawn_tick == e2.spawn_tick
        }),
{
    let n = entrances.len() as int;
    vstd::arithmetic::div_mod::lemma_fundamental_div_mod(k1, n);
    vstd::arithmetic::div_mod::lemma_fundamental_div_mod(k2, n);
    vstd::arithmetic::div_mod::lemma_mod_bound(k1, n);
    vstd::arithmetic::div_mod::lemma_mod_bound(k2, n);
    assert(k1 % n != k2 % n);
    let i1 = k1 % n;
    let i2 = k2 % n;
    assert(entrances[i1] != entrances[i2]);
    assert(entrances.contains(entrances[i1]));
}

/// The first `n` enemies of a wave, one round, enter at the `n` entrances in
/// their order.
pub proof fn lemma_first_round_in_entrance_order(
    wave: Seq<Group>,
    entrances: Seq<(usize, usize)>,
    tick: u32,
    k: int,
)
    requires
        0 <= k < entrances.len(),
        k < wave_enemies(wave, entrances, tick).len(),
    ensures
        ({
            let e = wave_enemies(wave, entrances, tick)[k];
            &&& (e.true_row, e.true_col) == entrances[k]
            &&& e.spawn_tick == tick
        }),
{
    vstd::arithmetic::div_mod::lemma_small_mod(k as nat, entrances.len() as nat);
    vstd::arithmetic::div_mod::lemma_basic_div(k, entrances.len() as int);
}

/// The `k`-th enemy of a wave sent at `tick`, with `n` entrances, spawns
/// `TICKS_BETWEEN_SPAWNS` ticks after each round before it: at
/// `tick + (k / n) * TICKS_BETWEEN_SPAWNS`, at entrance `k % n`.
pub proof fn lemma_spawn_schedule(wave: Seq<Group>, entrances: Seq<(usize, usize)>, tick: u32, k: int)
    requires
        can_queue(wave, entrances, tick),
        0 <= k < wave_enemies(wave, entrances, tick).len(),
        k / (entrances.len() as int) <= u32::MAX,
    ensures
        entrances.len() > 0,
        wave_enemies(wave, entrances, tick)[k].spawn_tick == tick + (k / (entrances.len() as int))
            * TICKS_BETWEEN_SPAWNS,
        (wave_enemies(wave, entrances, tick)[k].true_row, wave_enemies(
            wave,
            entrances,
            tick,
        )[k].true_col) == entrances[k % (entrances.len() as int)],
{
    let n = entrances.len() as int;
    assert(spawn_delay(k, n) <= u32::MAX && tick + spawn_delay(k, n) <= u32::MAX);
    vstd::arithmetic::div_mod::lemma_mod_bound(k, n);
    assert(0 <= k / n) by (nonlinear_arith)
        requires
            0 <= k,
            n > 0,
    ;
}

} // verus!
