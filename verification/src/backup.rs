//! Backup and restore orchestration.
//!
//! A backup drives the session through one request per configuration key:
//! first `"backup"` asks the firmware for the keys it can list; if the
//! listing comes back empty, a fixed fallback table of known keys stands
//! in, so older firmware is still backed up completely. Each key is then
//! queried in order; a nonempty reply is captured and the key kept in the
//! replay order, an empty reply drops the key. A restore replays the
//! captured value of every key in the replay order, skipping keys without
//! a captured entry.

use vstd::prelude::*;
use vstd::seq_lib::group_seq_lib_default;
use vstd::string::*;

use crate::reply::{spec_lines, split_lines};

verus! {

broadcast use group_seq_lib_default;

/// A configuration snapshot: `restore` is the replay order and decides
/// membership; `commands` maps each captured key to its captured value.
/// A key in `restore` without an entry in `commands` is skipped when
/// replaying; an entry in `commands` absent from `restore` is never
/// replayed.
pub struct BackupData {
    /// Keys to replay, in order.
    pub restore: Vec<String>,
    /// Captured (key, value) pairs.
    pub commands: Vec<(String, String)>,
}

/// The (key, value) pairs as sequences of characters.
pub open spec fn pairs_view(commands: Seq<(String, String)>) -> Seq<(Seq<char>, Seq<char>)> {
    commands.map_values(|p: (String, String)| (p.0@, p.1@))
}

/// The value stored for `key`: the first pair carrying it, if any.
pub open spec fn spec_lookup(commands: Seq<(Seq<char>, Seq<char>)>, key: Seq<char>) -> Option<
    Seq<char>,
>
    decreases commands.len(),
{
    if commands.len() == 0 {
        None
    } else if commands[0].0 == key {
        Some(commands[0].1)
    } else {
        spec_lookup(commands.drop_first(), key)
    }
}

/// The requests a restore sends: for each key of the replay order, in
/// order, the key paired with its stored value; keys without a stored
/// value are skipped.
pub open spec fn spec_restore_plan(
    restore: Seq<Seq<char>>,
    commands: Seq<(Seq<char>, Seq<char>)>,
) -> Seq<(Seq<char>, Seq<char>)>
    decreases restore.len(),
{
    if restore.len() == 0 {
        seq![]
    } else {
        let rest = spec_restore_plan(restore.drop_first(), commands);
        match spec_lookup(commands, restore[0]) {
            Some(v) => seq![(restore[0], v)] + rest,
            None => rest,
        }
    }
}

/// The value captured for `key`, if any.
pub fn lookup_command(commands: &Vec<(String, String)>, key: &String) -> (r: Option<String>)
    ensures
        (match r {
            Some(v) => spec_lookup(pairs_view(commands@), key@) == Some(v@),
            None => spec_lookup(pairs_view(commands@), key@) is None,
        }),
{
    let mut i: usize = 0;
    proof {
        assert(pairs_view(commands@).skip(0) =~~= pairs_view(commands@));
    }
    while i < commands.len()
        invariant
            i <= commands@.len(),
            spec_lookup(pairs_view(commands@), key@) == spec_lookup(
                pairs_view(commands@).skip(i as int),
                key@,
            ),
        decreases commands@.len() - i,
    {
        if commands[i].0.eq(key) {
            return Some(commands[i].1.clone());
        }
        proof {
            assert(pairs_view(commands@).skip(i as int).drop_first() =~~= pairs_view(
                commands@,
            ).skip(i as int + 1));
        }
        i = i + 1;
    }
    None
}

/// The exact request sequence a restore of `data` sends: every key of
/// the replay order that has a captured value, with that value, in
/// order. Replaying tolerates a key without a captured entry by
/// skipping it; it never fails on one.
pub fn restore_plan(data: &BackupData) -> (plan: Vec<(String, String)>)
    ensures
        pairs_view(plan@) == spec_restore_plan(data.restore.deep_view(), pairs_view(data.commands@)),
{
    let mut plan: Vec<(String, String)> = Vec::new();
    let mut i: usize = 0;
    let ghost rv = data.restore.deep_view();
    let ghost cv = pairs_view(data.commands@);
    proof {
        assert(rv.skip(0) =~~= rv);
        assert(pairs_view(plan@) =~~= Seq::<(Seq<char>, Seq<char>)>::empty());
    }
    while i < data.restore.len()
        invariant
            i <= data.restore@.len(),
            rv == data.restore.deep_view(),
            cv == pairs_view(data.commands@),
            spec_restore_plan(rv, cv) == pairs_view(plan@) + spec_restore_plan(
                rv.skip(i as int),
                cv,
            ),
        decreases data.restore@.len() - i,
    {
        let key = &data.restore[i];
        let ghost old_plan = pairs_view(plan@);
        proof {
            assert(rv.skip(i as int)[0] == key@);
            assert(rv.skip(i as int).drop_first() =~~= rv.skip(i as int + 1));
        }
        match lookup_command(&data.commands, key) {
            Some(v) => {
                plan.push((key.clone(), v));
                proof {
                    assert(pairs_view(plan@) =~~= old_plan.push(
                        (rv.skip(i as int)[0], spec_lookup(cv, rv.skip(i as int)[0])->Some_0),
                    ));
                    assert(old_plan.push((rv.skip(i as int)[0], spec_lookup(cv, rv.skip(i as int)[0])->Some_0))
                        =~~= old_plan + seq![(rv.skip(i as int)[0], spec_lookup(cv, rv.skip(i as int)[0])->Some_0)]);
                    assert((old_plan + seq![(rv.skip(i as int)[0], spec_lookup(cv, rv.skip(i as int)[0])->Some_0)])
                        + spec_restore_plan(rv.skip(i as int + 1), cv) =~~= old_plan + (seq![
                        (rv.skip(i as int)[0], spec_lookup(cv, rv.skip(i as int)[0])->Some_0),
                    ] + spec_restore_plan(rv.skip(i as int + 1), cv)));
                }
            },
            None => {},
        }
        i = i + 1;
    }
    proof {
        assert(rv.skip(data.restore@.len() as int).len() == 0);
        assert(pairs_view(plan@) + spec_restore_plan(rv.skip(data.restore@.len() as int), cv)
            =~~= pairs_view(plan@));
    }
    plan
}

/// The fixed fallback list of configuration keys, used when the firmware
/// cannot list what it supports. A point-in-time table of keys known to
/// be backed up, not a protocol guarantee.
pub open spec fn spec_fallback_keys() -> Seq<Seq<char>> {
    seq![
        "autoshift.categories"@,
        "autoshift.timeout"@,
        "colormap.map"@,
        "escape_oneshot.cancel_key"@,
        "hardware.keyscan"@,
        "hardware.side_power"@,
        "hardware.sled_current"@,
        "hostos.type"@,
        "idleleds.time_limit"@,
        "keymap.custom"@,
        "keymap.layerNames"@,
        "keymap.onlyCustom"@,
        "led.brightness"@,
        "led_mode.default"@,
        "macros.map"@,
        "mousekeys.accel_duration"@,
        "mousekeys.base_speed"@,
        "mousekeys.init_speed"@,
        "mousekeys.scroll_interval"@,
        "oneshot.auto_layers"@,
        "oneshot.auto_mods"@,
        "oneshot.double_tap_timeout"@,
        "oneshot.hold_timeout"@,
        "oneshot.stickable_keys"@,
        "oneshot.timeout"@,
        "palette"@,
        "settings.defaultLayer"@,
        "spacecadet.mode"@,
        "spacecadet.timeout"@,
        "tapdance.map"@,
        "typingbreaks.idleTimeLimit"@,
        "typingbreaks.leftMaxKeys"@,
        "typingbreaks.lockLength"@,
        "typingbreaks.lockTimeOut"@,
        "typingbreaks.rightMaxKeys"@,
    ]
}

/// The fallback keys as owned strings, in table order.
pub fn fallback_keys() -> (keys: Vec<String>)
    ensures
        keys.deep_view() == spec_fallback_keys(),
{
    let mut keys: Vec<String> = Vec::new();
    keys.push(String::from_str("autoshift.categories"));
    keys.push(String::from_str("autoshift.timeout"));
    keys.push(String::from_str("colormap.map"));
    keys.push(String::from_str("escape_oneshot.cancel_key"));
    keys.push(String::from_str("hardware.keyscan"));
    keys.push(String::from_str("hardware.side_power"));
    keys.push(String::from_str("hardware.sled_current"));
    keys.push(String::from_str("hostos.type"));
    keys.push(String::from_str("idleleds.time_limit"));
    keys.push(String::from_str("keymap.custom"));
    keys.push(String::from_str("keymap.layerNames"));
    keys.push(String::from_str("keymap.onlyCustom"));
    keys.push(String::from_str("led.brightness"));
    keys.push(String::from_str("led_mode.default"));
    keys.push(String::from_str("macros.map"));
    keys.push(String::from_str("mousekeys.accel_duration"));
    keys.push(String::from_str("mousekeys.base_speed"));
    keys.push(String::from_str("mousekeys.init_speed"));
    keys.push(String::from_str("mousekeys.scroll_interval"));
    keys.push(String::from_str("oneshot.auto_layers"));
    keys.push(String::from_str("oneshot.auto_mods"));
    keys.push(String::from_str("oneshot.double_tap_timeout"));
    keys.push(String::from_str("oneshot.hold_timeout"));
    keys.push(String::from_str("oneshot.stickable_keys"));
    keys.push(String::from_str("oneshot.timeout"));
    keys.push(String::from_str("palette"));
    keys.push(String::from_str("settings.defaultLayer"));
    keys.push(String::from_str("spacecadet.mode"));
    keys.push(String::from_str("spacecadet.timeout"));
    keys.push(String::from_str("tapdance.map"));
    keys.push(String::from_str("typingbreaks.idleTimeLimit"));
    keys.push(String::from_str("typingbreaks.leftMaxKeys"));
    keys.push(String::from_str("typingbreaks.lockLength"));
    keys.push(String::from_str("typingbreaks.lockTimeOut"));
    keys.push(String::from_str("typingbreaks.rightMaxKeys"));
    proof {
        assert(keys.deep_view() =~~= spec_fallback_keys());
    }
    keys
}

/// The candidate keys a backup queries, given the (normalized) reply to
/// the `"backup"` listing request: its lines, or the fallback table when
/// it has none.
pub open spec fn spec_backup_keys(listing: Seq<char>) -> Seq<Seq<char>> {
    if spec_lines(listing).len() == 0 {
        spec_fallback_keys()
    } else {
        spec_lines(listing)
    }
}

/// One backup in progress: the fixed candidate keys, how many have been
/// queried, and the snapshot assembled so far. The embedding program
/// asks for the next key with [`BackupRun::next_command`], performs the
/// request/reply cycle, and hands the normalized reply to
/// [`BackupRun::record`].
pub struct BackupRun {
    /// Candidate keys, fixed when the run begins.
    pub keys: Vec<String>,
    /// How many keys have been queried and recorded.
    pub next: usize,
    /// Replay order assembled so far: the queried keys with nonempty
    /// replies, in query order.
    pub restore: Vec<String>,
    /// Captured pairs, parallel to `restore`.
    pub commands: Vec<(String, String)>,
}

impl BackupRun {
    /// Start a backup from the normalized reply to the `"backup"`
    /// listing request. An empty listing substitutes the fallback table.
    pub fn begin(listing: &str) -> (run: BackupRun)
        ensures
            run.keys.deep_view() == spec_backup_keys(listing@),
            run.next == 0,
            run.restore@.len() == 0,
            run.commands@.len() == 0,
    {
        let mut keys = split_lines(listing);
        if keys.len() == 0 {
            keys = fallback_keys();
        }
        BackupRun { keys, next: 0, restore: Vec::new(), commands: Vec::new() }
    }

    /// The next key to query, or `None` when every key has been handled.
    pub fn next_command(&self) -> (r: Option<String>)
        ensures
            (match r {
                Some(c) => self.next < self.keys@.len() && c@ == self.keys.deep_view()[
                    self.next as int
                ],
                None => self.next >= self.keys@.len(),
            }),
    {
        if self.next < self.keys.len() {
            Some(self.keys[self.next].clone())
        } else {
            None
        }
    }

    /// Record the normalized reply to the current key's query: a
    /// nonempty reply captures the pair and keeps the key in the replay
    /// order; an empty reply drops the key, which is not an error.
    pub fn record(&mut self, reply: String)
        requires
            old(self).next < old(self).keys@.len(),
        ensures
            final(self).keys == old(self).keys,
            final(self).next == old(self).next + 1,
            reply@.len() > 0 ==> final(self).restore.deep_view() == old(
                self,
            ).restore.deep_view().push(old(self).keys.deep_view()[old(self).next as int]),
            reply@.len() > 0 ==> pairs_view(final(self).commands@) == pairs_view(
                old(self).commands@,
            ).push((old(self).keys.deep_view()[old(self).next as int], reply@)),
            reply@.len() == 0 ==> final(self).restore == old(self).restore && final(self).commands
                == old(self).commands,
    {
        let n = self.keys.len();
        assert(self.next < n);
        if !reply.as_str().is_empty() {
            let key = self.keys[self.next].clone();
            let ghost old_restore = self.restore.deep_view();
            let ghost old_commands = pairs_view(self.commands@);
            self.restore.push(key.clone());
            self.commands.push((key, reply));
            proof {
                assert(self.restore.deep_view() =~~= old_restore.push(
                    old(self).keys.deep_view()[old(self).next as int],
                ));
                assert(pairs_view(self.commands@) =~~= old_commands.push(
                    (old(self).keys.deep_view()[old(self).next as int], reply@),
                ));
            }
        }
        self.next = self.next + 1;
    }

    /// Close the run and hand over the assembled snapshot.
    pub fn finish(self) -> (data: BackupData)
        ensures
            data.restore == self.restore,
            data.commands == self.commands,
    {
        BackupData { restore: self.restore, commands: self.commands }
    }
}

/// No two pairs carry the same key.
pub open spec fn distinct_keys(commands: Seq<(Seq<char>, Seq<char>)>) -> bool {
    forall|i: int, j: int|
        0 <= i < j < commands.len() ==> (#[trigger] commands[i]).0 != (#[trigger] commands[j]).0
}

/// No two keys are equal.
pub open spec fn distinct_seq(keys: Seq<Seq<char>>) -> bool {
    forall|i: int, j: int| 0 <= i < j < keys.len() ==> keys[i] != keys[j]
}

/// What a backup captures when the device answers `replies[i]` to the
/// query for `keys[i]`: the pairs with nonempty replies, in query order.
pub open spec fn spec_backup_pairs(keys: Seq<Seq<char>>, replies: Seq<Seq<char>>) -> Seq<
    (Seq<char>, Seq<char>),
>
    decreases keys.len(),
{
    if keys.len() == 0 || replies.len() == 0 {
        seq![]
    } else {
        let rest = spec_backup_pairs(keys.drop_first(), replies.drop_first());
        if replies[0].len() > 0 {
            seq![(keys[0], replies[0])] + rest
        } else {
            rest
        }
    }
}

proof fn lemma_lookup_finds(commands: Seq<(Seq<char>, Seq<char>)>, k: int)
    requires
        distinct_keys(commands),
        0 <= k < commands.len(),
    ensures
        spec_lookup(commands, commands[k].0) == Some(commands[k].1),
    decreases k,
{
    if k > 0 {
        assert(commands[0].0 != commands[k].0);
        let rest = commands.drop_first();
        assert forall|i: int, j: int| 0 <= i < j < rest.len() implies (#[trigger] rest[i]).0 != (
        #[trigger] rest[j]).0 by {
            assert(commands[i + 1].0 != commands[j + 1].0);
        }
        lemma_lookup_finds(rest, k - 1);
    }
}

proof fn lemma_plan_replays_suffix(commands: Seq<(Seq<char>, Seq<char>)>, k: int)
    requires
        distinct_keys(commands),
        0 <= k <= commands.len(),
    ensures
        spec_restore_plan(
            commands.skip(k).map_values(|p: (Seq<char>, Seq<char>)| p.0),
            commands,
        ) == commands.skip(k),
    decreases commands.len() - k,
{
    let tail = commands.skip(k);
    let order = tail.map_values(|p: (Seq<char>, Seq<char>)| p.0);
    if k == commands.len() {
        assert(tail.len() == 0);
        assert(spec_restore_plan(order, commands) =~~= tail);
    } else {
        assert(order[0] == commands[k].0);
        lemma_lookup_finds(commands, k);
        assert(order.drop_first() =~~= commands.skip(k + 1).map_values(
            |p: (Seq<char>, Seq<char>)| p.0,
        ));
        lemma_plan_replays_suffix(commands, k + 1);
        assert(seq![(commands[k].0, commands[k].1)] + commands.skip(k + 1) =~~= tail);
    }
}

/// Replaying a snapshot whose captured pairs carry distinct keys, in the
/// order of exactly those keys, resends every captured pair with its
/// captured value, in order.
pub proof fn lemma_restore_replays_backup(commands: Seq<(Seq<char>, Seq<char>)>)
    requires
        distinct_keys(commands),
    ensures
        spec_restore_plan(commands.map_values(|p: (Seq<char>, Seq<char>)| p.0), commands)
            == commands,
{
    lemma_plan_replays_suffix(commands, 0);
    assert(commands.skip(0) =~~= commands);
    assert(commands.skip(0).map_values(|p: (Seq<char>, Seq<char>)| p.0) =~~= commands.map_values(
        |p: (Seq<char>, Seq<char>)| p.0,
    ));
}

proof fn lemma_backup_pairs_distinct(keys: Seq<Seq<char>>, replies: Seq<Seq<char>>)
    requires
        distinct_seq(keys),
    ensures
        distinct_keys(spec_backup_pairs(keys, replies)),
        forall|i: int|
            0 <= i < spec_backup_pairs(keys, replies).len() ==> keys.contains(
                (#[trigger] spec_backup_pairs(keys, replies)[i]).0,
            ),
    decreases keys.len(),
{
    if keys.len() == 0 || replies.len() == 0 {
    } else {
        let kt = keys.drop_first();
        let rt = replies.drop_first();
        assert forall|i: int, j: int| 0 <= i < j < kt.len() implies kt[i] != kt[j] by {
            assert(keys[i + 1] != keys[j + 1]);
        }
        lemma_backup_pairs_distinct(kt, rt);
        let rest = spec_backup_pairs(kt, rt);
        let pairs = spec_backup_pairs(keys, replies);
        assert forall|i: int| 0 <= i < rest.len() implies keys.contains((#[trigger] rest[i]).0) by {
            assert(kt.contains(rest[i].0));
            let m = choose|m: int| 0 <= m < kt.len() && kt[m] == rest[i].0;
            assert(keys[m + 1] == rest[i].0);
        }
        if replies[0].len() > 0 {
            assert(pairs == seq![(keys[0], replies[0])] + rest);
            assert forall|i: int, j: int| 0 <= i < j < pairs.len() implies (#[trigger] pairs[i]).0
                != (#[trigger] pairs[j]).0 by {
                if i == 0 {
                    assert(kt.contains(rest[j - 1].0));
                    let m = choose|m: int| 0 <= m < kt.len() && kt[m] == rest[j - 1].0;
                    assert(keys[0] != keys[m + 1]);
                } else {
                    assert(rest[i - 1].0 != rest[j - 1].0);
                }
            }
            assert forall|i: int| 0 <= i < pairs.len() implies keys.contains(
                (#[trigger] pairs[i]).0,
            ) by {
                if i == 0 {
                    assert(keys[0] == pairs[0].0);
                } else {
                    assert(keys.contains(rest[i - 1].0));
                }
            }
        }
    }
}

/// Backing up a device that answers `replies[i]` to distinct keys
/// `keys[i]`, then planning a restore of that snapshot, resends every
/// key that gave a nonempty reply with exactly the reply it gave, in the
/// original key order.
pub proof fn lemma_backup_restore_round_trip(keys: Seq<Seq<char>>, replies: Seq<Seq<char>>)
    requires
        keys.len() == replies.len(),
        distinct_seq(keys),
    ensures
        ({
            let pairs = spec_backup_pairs(keys, replies);
            spec_restore_plan(pairs.map_values(|p: (Seq<char>, Seq<char>)| p.0), pairs) == pairs
        }),
{
    lemma_backup_pairs_distinct(keys, replies);
    lemma_restore_replays_backup(spec_backup_pairs(keys, replies));
}

} // verus!
