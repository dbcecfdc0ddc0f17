//! Mirroring of bindings onto the right-hand Windows key.
//!
//! A hotkey written with `win` is meant for either Windows key. After
//! parsing, each such binding gets a twin with `rwin` in the same place,
//! unless the file already says what the chord does with `rwin`.

use crate::model::{
    bindings_view, copy_keys, copy_text, group_view, groups_view, keys_view, BindingView, Chord,
    ConfigView, GroupView, HotkeyBinding, Whkdrc,
};
use vstd::prelude::*;
use vstd::string::*;

verus! {

/// The key that is mirrored.
pub open spec fn primary_key() -> Seq<char> {
    "win"@
}

/// The key that a mirrored chord holds in place of the primary one.
pub open spec fn secondary_key() -> Seq<char> {
    "rwin"@
}

/// The first place at or after `from` where `key` stands in `keys`, or the
/// chord's length where it stands nowhere.
pub open spec fn position_from(keys: Chord, key: Seq<char>, from: int) -> int
    decreases keys.len() - from,
{
    if 0 <= from < keys.len() {
        if keys[from] == key {
            from
        } else {
            position_from(keys, key, from + 1)
        }
    } else {
        keys.len() as int
    }
}

/// The first place where `key` stands in `keys`, or the chord's length.
pub open spec fn position(keys: Chord, key: Seq<char>) -> int {
    position_from(keys, key, 0)
}

/// Whether `key` is one of `keys`.
pub open spec fn mentions(keys: Chord, key: Seq<char>) -> bool {
    position(keys, key) < keys.len()
}

/// The chord with the secondary key in the first place of the primary one.
pub open spec fn mirrored(keys: Chord) -> Chord {
    if mentions(keys, primary_key()) {
        keys.update(position(keys, primary_key()), secondary_key())
    } else {
        keys
    }
}

/// Two chords are equivalent when they hold the same keys, in any order.
pub open spec fn equivalent(a: Chord, b: Chord) -> bool {
    a.to_set() == b.to_set()
}

/// Whether one of the first `n` bindings has a chord equivalent to `keys`.
pub open spec fn bound_among(bindings: Seq<BindingView>, n: int, keys: Chord) -> bool {
    exists|i: int| 0 <= i < n && i < bindings.len() && equivalent((#[trigger] bindings[i]).keys, keys)
}

/// Whether one of the first `n` groups has a chord equivalent to `keys`.
pub open spec fn grouped_among(groups: Seq<GroupView>, n: int, keys: Chord) -> bool {
    exists|i: int| 0 <= i < n && i < groups.len() && equivalent((#[trigger] groups[i]).keys, keys)
}

/// Whether the configuration already says what a chord equivalent to `keys`
/// does, in a plain binding or in a group.
pub open spec fn specified(config: ConfigView, keys: Chord) -> bool {
    bound_among(config.bindings, config.bindings.len() as int, keys) || grouped_among(
        config.app_bindings,
        config.app_bindings.len() as int,
        keys,
    )
}

/// Whether an entry with the chord `keys` gets a twin.
pub open spec fn wants_twin(config: ConfigView, keys: Chord) -> bool {
    mentions(keys, primary_key()) && !specified(config, mirrored(keys))
}

/// The twin of a binding: the same command and scope under the mirrored
/// chord.
pub open spec fn twin(binding: BindingView) -> BindingView {
    BindingView {
        keys: mirrored(binding.keys),
        command: binding.command,
        process_name: binding.process_name,
    }
}

/// The twin of a group: the mirrored chord, carried by every entry.
pub open spec fn group_twin(group: GroupView) -> GroupView {
    GroupView {
        keys: mirrored(group.keys),
        members: group.members.map_values(
            |m: BindingView|
                BindingView {
                    keys: mirrored(group.keys),
                    command: m.command,
                    process_name: m.process_name,
                },
        ),
    }
}

/// The twins of the first `n` plain bindings, in their order.
pub open spec fn binding_twins(config: ConfigView, n: int) -> Seq<BindingView>
    decreases n,
{
    if n <= 0 || n > config.bindings.len() {
        Seq::empty()
    } else if wants_twin(config, config.bindings[n - 1].keys) {
        binding_twins(config, n - 1).push(twin(config.bindings[n - 1]))
    } else {
        binding_twins(config, n - 1)
    }
}

/// The twins of the first `n` groups, in their order.
pub open spec fn group_twins(config: ConfigView, n: int) -> Seq<GroupView>
    decreases n,
{
    if n <= 0 || n > config.app_bindings.len() {
        Seq::empty()
    } else if wants_twin(config, config.app_bindings[n - 1].keys) {
        group_twins(config, n - 1).push(group_twin(config.app_bindings[n - 1]))
    } else {
        group_twins(config, n - 1)
    }
}

/// The configuration with its twins: every entry stays where it was, and the
/// twins follow in the order of the entries they come from.
pub open spec fn augmented(config: ConfigView) -> ConfigView {
    ConfigView {
        shell: config.shell,
        app_bindings: config.app_bindings + group_twins(config, config.app_bindings.len() as int),
        bindings: config.bindings + binding_twins(config, config.bindings.len() as int),
        pause_binding: config.pause_binding,
        pause_hook: config.pause_hook,
    }
}

/// The chords of all entries: those of the plain bindings, then those of the
/// groups.
pub open spec fn chords(config: ConfigView) -> Seq<Chord> {
    config.bindings.map_values(|b: BindingView| b.keys) + config.app_bindings.map_values(
        |g: GroupView| g.keys,
    )
}

/// No two entries have equivalent chords.
pub open spec fn free_of_duplicates(config: ConfigView) -> bool {
    forall|i: int, j: int|
        0 <= i < j < chords(config).len() ==> !equivalent(
            #[trigger] chords(config)[i],
            #[trigger] chords(config)[j],
        )
}

/// No chord holds both `win` and `rwin`.
pub open spec fn one_sided(config: ConfigView) -> bool {
    forall|i: int|
        0 <= i < chords(config).len() ==> !(mentions(#[trigger] chords(config)[i], primary_key())
            && mentions(chords(config)[i], secondary_key()))
}

/// No two entries that get a twin get equivalent twins.
pub open spec fn twins_differ(config: ConfigView) -> bool {
    forall|i: int, j: int|
        0 <= i < j < chords(config).len() && wants_twin(config, chords(config)[i]) && wants_twin(
            config,
            chords(config)[j],
        ) ==> !equivalent(
            mirrored(#[trigger] chords(config)[i]),
            mirrored(#[trigger] chords(config)[j]),
        )
}

/// Whether `key` is one of `keys`.
fn holds(keys: &Vec<String>, key: &String) -> (r: bool)
    ensures
        r == keys_view(keys@).contains(key@),
{
    let mut i: usize = 0;
    while i < keys.len()
        invariant
            i <= keys.len(),
            forall|j: int| 0 <= j < i ==> keys_view(keys@)[j] != key@,
        decreases keys.len() - i,
    {
        if keys[i] == *key {
            assert(keys_view(keys@)[i as int] == key@);
            return true;
        }
        i += 1;
    }
    false
}

/// Whether every key of `a` is one of `b`.
fn covers(a: &Vec<String>, b: &Vec<String>) -> (r: bool)
    ensures
        r == (forall|i: int| 0 <= i < a.len() ==> keys_view(b@).contains(#[trigger] keys_view(a@)[i])),
{
    let mut i: usize = 0;
    while i < a.len()
        invariant
            i <= a.len(),
            forall|j: int| 0 <= j < i ==> keys_view(b@).contains(#[trigger] keys_view(a@)[j]),
        decreases a.len() - i,
    {
        if !holds(b, &a[i]) {
            assert(!keys_view(b@).contains(keys_view(a@)[i as int]));
            return false;
        }
        i += 1;
    }
    true
}

/// Whether two chords hold the same keys, in any order.
pub fn same_keys(a: &Vec<String>, b: &Vec<String>) -> (r: bool)
    ensures
        r == equivalent(keys_view(a@), keys_view(b@)),
{
    proof {
        lemma_equivalent(keys_view(a@), keys_view(b@));
    }
    covers(a, b) && covers(b, a)
}

/// The first place where `key` stands in `keys`, or the chord's length.
fn find(keys: &Vec<String>, key: &String) -> (r: usize)
    ensures
        r == position(keys_view(keys@), key@),
        r <= keys.len(),
{
    let mut i: usize = 0;
    while i < keys.len()
        invariant
            i <= keys.len(),
            position_from(keys_view(keys@), key@, i as int) == position(keys_view(keys@), key@),
        decreases keys.len() - i,
    {
        if keys[i] == *key {
            return i;
        }
        i += 1;
    }
    i
}

/// The chord with `rwin` at place `at`.
fn with_secondary(keys: &Vec<String>, at: usize) -> (r: Vec<String>)
    requires
        at < keys.len(),
    ensures
        keys_view(r@) == keys_view(keys@).update(at as int, secondary_key()),
{
    let mut out: Vec<String> = Vec::new();
    let mut i: usize = 0;
    while i < keys.len()
        invariant
            i <= keys.len(),
            at < keys.len(),
            keys_view(out@) =~= keys_view(keys@).update(at as int, secondary_key()).take(i as int),
        decreases keys.len() - i,
    {
        let ghost before = keys_view(out@);
        let ghost wanted = keys_view(keys@).update(at as int, secondary_key());
        if i == at {
            out.push(String::from_str("rwin"));
        } else {
            out.push(keys[i].clone());
        }
        assert(keys_view(out@) =~= before.push(wanted[i as int]));
        assert(wanted.take(i + 1) =~= wanted.take(i as int).push(wanted[i as int]));
        i += 1;
    }
    assert(keys_view(out@) =~= keys_view(keys@).update(at as int, secondary_key()));
    out
}

/// The twin of a group's entries: each under the chord `keys`.
fn rekeyed(members: &Vec<HotkeyBinding>, keys: &Vec<String>) -> (r: Vec<HotkeyBinding>)
    ensures
        bindings_view(r@) == bindings_view(members@).map_values(
            |m: BindingView|
                BindingView {
                    keys: keys_view(keys@),
                    command: m.command,
                    process_name: m.process_name,
                },
        ),
{
    let mut out: Vec<HotkeyBinding> = Vec::new();
    let ghost wanted = bindings_view(members@).map_values(
        |m: BindingView|
            BindingView { keys: keys_view(keys@), command: m.command, process_name: m.process_name },
    );
    let mut i: usize = 0;
    while i < members.len()
        invariant
            i <= members.len(),
            wanted.len() == members.len(),
            wanted == bindings_view(members@).map_values(
                |m: BindingView|
                    BindingView {
                        keys: keys_view(keys@),
                        command: m.command,
                        process_name: m.process_name,
                    },
            ),
            bindings_view(out@) =~= wanted.take(i as int),
        decreases members.len() - i,
    {
        let ghost before = bindings_view(out@);
        let member = HotkeyBinding {
            keys: copy_keys(keys),
            command: members[i].command.clone(),
            process_name: copy_text(&members[i].process_name),
        };
        out.push(member);
        assert(bindings_view(out@) =~= before.push(member@));
        assert(member@ == wanted[i as int]);
        assert(wanted.take(i + 1) =~= wanted.take(i as int).push(wanted[i as int]));
        i += 1;
    }
    assert(bindings_view(out@) =~= wanted);
    out
}

impl Whkdrc {
    /// Whether an entry of the configuration has a chord equivalent to `keys`.
    pub fn specifies(&self, keys: &Vec<String>) -> (r: bool)
        ensures
            r == specified(self@, keys_view(keys@)),
    {
        let mut i: usize = 0;
        while i < self.bindings.len()
            invariant
                i <= self.bindings.len(),
                !bound_among(self@.bindings, i as int, keys_view(keys@)),
            decreases self.bindings.len() - i,
        {
            if same_keys(&self.bindings[i].keys, keys) {
                assert(equivalent(self@.bindings[i as int].keys, keys_view(keys@)));
                return true;
            }
            i += 1;
        }
        let mut j: usize = 0;
        while j < self.app_bindings.len()
            invariant
                j <= self.app_bindings.len(),
                !bound_among(self@.bindings, self@.bindings.len() as int, keys_view(keys@)),
                !grouped_among(self@.app_bindings, j as int, keys_view(keys@)),
            decreases self.app_bindings.len() - j,
        {
            if same_keys(&self.app_bindings[j].0, keys) {
                assert(equivalent(self@.app_bindings[j as int].keys, keys_view(keys@)));
                return true;
            }
            j += 1;
        }
        false
    }

    /// Adds the twin of every entry whose chord holds `win`, unless an entry
    /// with an equivalent chord is already there. Nothing that was there
    /// changes; the twins follow the plain bindings and the groups in the
    /// order of the entries they come from.
    pub fn add_rwin_bindings(&mut self)
        ensures
            final(self)@ == augmented(old(self)@),
            old(self)@.well_formed() ==> final(self)@.well_formed(),
    {
        proof {
            if self@.well_formed() {
                law_mirroring_keeps_form(self@);
            }
        }
        let win = String::from_str("win");
        let mut bindings: Vec<HotkeyBinding> = Vec::new();
        let mut i: usize = 0;
        assert(bindings_view(bindings@) =~= binding_twins(self@, 0));
        while i < self.bindings.len()
            invariant
                i <= self.bindings.len(),
                win@ == primary_key(),
                bindings_view(bindings@) == binding_twins(self@, i as int),
            decreases self.bindings.len() - i,
        {
            let binding = &self.bindings[i];
            let at = find(&binding.keys, &win);
            if at < binding.keys.len() {
                let keys = with_secondary(&binding.keys, at);
                if !self.specifies(&keys) {
                    let ghost before = bindings_view(bindings@);
                    let added = HotkeyBinding {
                        keys,
                        command: binding.command.clone(),
                        process_name: copy_text(&binding.process_name),
                    };
                    bindings.push(added);
                    assert(bindings_view(bindings@) =~= before.push(added@));
                }
            }
            i += 1;
        }
        let mut groups: Vec<(Vec<String>, Vec<HotkeyBinding>)> = Vec::new();
        let mut j: usize = 0;
        assert(groups_view(groups@) =~= group_twins(self@, 0));
        while j < self.app_bindings.len()
            invariant
                j <= self.app_bindings.len(),
                win@ == primary_key(),
                bindings_view(bindings@) == binding_twins(self@, self.bindings.len() as int),
                groups_view(groups@) == group_twins(self@, j as int),
            decreases self.app_bindings.len() - j,
        {
            let group = &self.app_bindings[j];
            let at = find(&group.0, &win);
            if at < group.0.len() {
                let keys = with_secondary(&group.0, at);
                if !self.specifies(&keys) {
                    let ghost before = groups_view(groups@);
                    let members = rekeyed(&group.1, &keys);
                    let added = (keys, members);
                    groups.push(added);
                    assert(groups_view(groups@) =~= before.push(group_view(added)));
                }
            }
            j += 1;
        }
        let ghost plain = bindings_view(self.bindings@);
        let ghost plain_twins = bindings_view(bindings@);
        let ghost grouped = groups_view(self.app_bindings@);
        let ghost grouped_twins = groups_view(groups@);
        self.bindings.append(&mut bindings);
        self.app_bindings.append(&mut groups);
        assert(bindings_view(self.bindings@) =~= plain + plain_twins);
        assert(groups_view(self.app_bindings@) =~= grouped + grouped_twins);
    }
}

/// Chords are equivalent exactly when each holds every key of the other.
pub proof fn lemma_equivalent(a: Chord, b: Chord)
    ensures
        equivalent(a, b) <==> (forall|i: int| 0 <= i < a.len() ==> b.contains(#[trigger] a[i]))
            && (forall|j: int| 0 <= j < b.len() ==> a.contains(#[trigger] b[j])),
{
    if equivalent(a, b) {
        assert forall|i: int| 0 <= i < a.len() implies b.contains(#[trigger] a[i]) by {
            assert(a.contains(a[i]));
            assert(a.to_set().contains(a[i]));
            assert(b.to_set().contains(a[i]));
        }
        assert forall|j: int| 0 <= j < b.len() implies a.contains(#[trigger] b[j]) by {
            assert(b.contains(b[j]));
            assert(b.to_set().contains(b[j]));
            assert(a.to_set().contains(b[j]));
        }
    }
    if (forall|i: int| 0 <= i < a.len() ==> b.contains(#[trigger] a[i])) && (forall|j: int|
        0 <= j < b.len() ==> a.contains(#[trigger] b[j])) {
        assert forall|k: Seq<char>| a.to_set().contains(k) == b.to_set().contains(k) by {
            if a.contains(k) {
                let i = choose|i: int| 0 <= i < a.len() && a[i] == k;
                assert(b.contains(a[i]));
            }
            if b.contains(k) {
                let j = choose|j: int| 0 <= j < b.len() && b[j] == k;
                assert(a.contains(b[j]));
            }
        }
        assert(a.to_set() =~= b.to_set());
    }
}

/// The position of a key is a place in the chord where the key stands, with
/// no earlier one; or the chord's length where there is none.
pub proof fn lemma_position(keys: Chord, key: Seq<char>, from: int)
    requires
        0 <= from <= keys.len(),
    ensures
        from <= position_from(keys, key, from) <= keys.len(),
        position_from(keys, key, from) < keys.len() ==> keys[position_from(keys, key, from)] == key,
        forall|i: int| from <= i < position_from(keys, key, from) ==> keys[i] != key,
    decreases keys.len() - from,
{
    if from < keys.len() && keys[from] != key {
        lemma_position(keys, key, from + 1);
    }
}

/// Among the twins of the first `n` bindings stands the twin of each of
/// them that wants one.
pub proof fn lemma_twin_listed(config: ConfigView, i: int, n: int)
    requires
        0 <= i < n <= config.bindings.len(),
        wants_twin(config, config.bindings[i].keys),
    ensures
        binding_twins(config, n).contains(twin(config.bindings[i])),
    decreases n,
{
    let last = config.bindings[n - 1];
    if i == n - 1 {
        let twins = binding_twins(config, n);
        assert(twins[twins.len() - 1] == twin(last));
    } else {
        lemma_twin_listed(config, i, n - 1);
        let before = binding_twins(config, n - 1);
        let k = choose|k: int| 0 <= k < before.len() && before[k] == twin(config.bindings[i]);
        assert(binding_twins(config, n)[k] == twin(config.bindings[i]));
    }
}

/// Each twin among those of the first `n` bindings comes from one of them
/// that wants one.
pub proof fn lemma_twin_origin(config: ConfigView, n: int, k: int) -> (i: int)
    requires
        0 <= n <= config.bindings.len(),
        0 <= k < binding_twins(config, n).len(),
    ensures
        0 <= i < n,
        wants_twin(config, config.bindings[i].keys),
        binding_twins(config, n)[k] == twin(config.bindings[i]),
    decreases n,
{
    if wants_twin(config, config.bindings[n - 1].keys) && k == binding_twins(config, n).len() - 1 {
        n - 1
    } else {
        lemma_twin_origin(config, n - 1, k)
    }
}

/// Among the twins of the first `n` groups stands the twin of each of them
/// that wants one.
pub proof fn lemma_group_twin_listed(config: ConfigView, i: int, n: int)
    requires
        0 <= i < n <= config.app_bindings.len(),
        wants_twin(config, config.app_bindings[i].keys),
    ensures
        group_twins(config, n).contains(group_twin(config.app_bindings[i])),
    decreases n,
{
    let last = config.app_bindings[n - 1];
    if i == n - 1 {
        let twins = group_twins(config, n);
        assert(twins[twins.len() - 1] == group_twin(last));
    } else {
        lemma_group_twin_listed(config, i, n - 1);
        let before = group_twins(config, n - 1);
        let k = choose|k: int| 0 <= k < before.len() && before[k] == group_twin(config.app_bindings[i]);
        assert(group_twins(config, n)[k] == group_twin(config.app_bindings[i]));
    }
}

/// Each twin among those of the first `n` groups comes from one of them that
/// wants one.
pub proof fn lemma_group_twin_origin(config: ConfigView, n: int, k: int) -> (i: int)
    requires
        0 <= n <= config.app_bindings.len(),
        0 <= k < group_twins(config, n).len(),
    ensures
        0 <= i < n,
        wants_twin(config, config.app_bindings[i].keys),
        group_twins(config, n)[k] == group_twin(config.app_bindings[i]),
    decreases n,
{
    if wants_twin(config, config.app_bindings[n - 1].keys) && k == group_twins(config, n).len()
        - 1 {
        n - 1
    } else {
        lemma_group_twin_origin(config, n - 1, k)
    }
}

/// A key is mentioned exactly when the chord holds it.
pub proof fn lemma_mentions(keys: Chord, key: Seq<char>)
    ensures
        mentions(keys, key) <==> keys.contains(key),
{
    lemma_position(keys, key, 0);
    if keys.contains(key) {
        let i = choose|i: int| 0 <= i < keys.len() && keys[i] == key;
        assert(keys[i] == key);
    }
}

/// Mirroring a chord puts `rwin` in and leaves every key but `win` and `rwin`
/// as it was.
pub proof fn lemma_mirrored_keys(keys: Chord, key: Seq<char>)
    requires
        mentions(keys, primary_key()),
    ensures
        mirrored(keys).contains(secondary_key()),
        key != primary_key() && key != secondary_key() ==> (keys.contains(key) <==> mirrored(
            keys,
        ).contains(key)),
{
    lemma_position(keys, primary_key(), 0);
    let at = position(keys, primary_key());
    let twin = mirrored(keys);
    assert(twin[at] == secondary_key());
    if key != primary_key() && key != secondary_key() {
        if keys.contains(key) {
            let i = choose|i: int| 0 <= i < keys.len() && keys[i] == key;
            assert(twin[i] == key);
        }
        if twin.contains(key) {
            let i = choose|i: int| 0 <= i < twin.len() && twin[i] == key;
            assert(keys[i] == key);
        }
    }
}

/// Two chords that hold `win` and not `rwin` are equivalent when their twins
/// are.
pub proof fn lemma_mirrored_equivalent(a: Chord, b: Chord)
    requires
        mentions(a, primary_key()),
        mentions(b, primary_key()),
        !mentions(a, secondary_key()),
        !mentions(b, secondary_key()),
        equivalent(mirrored(a), mirrored(b)),
    ensures
        equivalent(a, b),
{
    lemma_mentions(a, primary_key());
    lemma_mentions(b, primary_key());
    lemma_mentions(a, secondary_key());
    lemma_mentions(b, secondary_key());
    assert forall|i: int| 0 <= i < a.len() implies b.contains(#[trigger] a[i]) by {
        let key = a[i];
        assert(a.contains(key));
        lemma_mirrored_keys(a, key);
        lemma_mirrored_keys(b, key);
        if key != primary_key() {
            assert(mirrored(a).to_set().contains(key));
            assert(mirrored(b).to_set().contains(key));
        }
    }
    assert forall|j: int| 0 <= j < b.len() implies a.contains(#[trigger] b[j]) by {
        let key = b[j];
        assert(b.contains(key));
        lemma_mirrored_keys(a, key);
        lemma_mirrored_keys(b, key);
        if key != primary_key() {
            assert(mirrored(b).to_set().contains(key));
            assert(mirrored(a).to_set().contains(key));
        }
    }
    lemma_equivalent(a, b);
}

/// Two twins among those of the first `n` bindings come from two of them,
/// in the same order.
pub proof fn lemma_twin_origins(config: ConfigView, n: int, k: int, l: int) -> (r: (int, int))
    requires
        0 <= n <= config.bindings.len(),
        0 <= k < l < binding_twins(config, n).len(),
    ensures
        0 <= r.0 < r.1 < n,
        wants_twin(config, config.bindings[r.0].keys),
        wants_twin(config, config.bindings[r.1].keys),
        binding_twins(config, n)[k] == twin(config.bindings[r.0]),
        binding_twins(config, n)[l] == twin(config.bindings[r.1]),
    decreases n,
{
    if wants_twin(config, config.bindings[n - 1].keys) && l == binding_twins(config, n).len() - 1 {
        let i = lemma_twin_origin(config, n - 1, k);
        (i, n - 1)
    } else {
        lemma_twin_origins(config, n - 1, k, l)
    }
}

/// Two twins among those of the first `n` groups come from two of them, in
/// the same order.
pub proof fn lemma_group_twin_origins(config: ConfigView, n: int, k: int, l: int) -> (r: (
    int,
    int,
))
    requires
        0 <= n <= config.app_bindings.len(),
        0 <= k < l < group_twins(config, n).len(),
    ensures
        0 <= r.0 < r.1 < n,
        wants_twin(config, config.app_bindings[r.0].keys),
        wants_twin(config, config.app_bindings[r.1].keys),
        group_twins(config, n)[k] == group_twin(config.app_bindings[r.0]),
        group_twins(config, n)[l] == group_twin(config.app_bindings[r.1]),
    decreases n,
{
    if wants_twin(config, config.app_bindings[n - 1].keys) && l == group_twins(config, n).len()
        - 1 {
        let i = lemma_group_twin_origin(config, n - 1, k);
        (i, n - 1)
    } else {
        lemma_group_twin_origins(config, n - 1, k, l)
    }
}

/// A chord that is not yet specified is equivalent to no entry's chord.
pub proof fn lemma_unspecified(config: ConfigView, keys: Chord, c: int)
    requires
        !specified(config, keys),
        0 <= c < chords(config).len(),
    ensures
        !equivalent(chords(config)[c], keys),
        !equivalent(keys, chords(config)[c]),
{
    let n = config.bindings.len() as int;
    if c < n {
        assert(chords(config)[c] == config.bindings[c].keys);
    } else {
        assert(chords(config)[c] == config.app_bindings[c - n].keys);
    }
}

/// Mirroring only appends: every binding and every group stays at its place,
/// unchanged, and the shell and the pause settings stay.
pub proof fn law_mirroring_appends(config: ConfigView)
    ensures
        config.bindings.is_prefix_of(augmented(config).bindings),
        config.app_bindings.is_prefix_of(augmented(config).app_bindings),
        augmented(config).shell == config.shell,
        augmented(config).pause_binding == config.pause_binding,
        augmented(config).pause_hook == config.pause_hook,
{
}

/// After mirroring, every plain binding whose chord holds `win` has its twin
/// among the bindings, unless an entry with a chord equivalent to the twin's
/// was there before.
pub proof fn law_binding_has_twin(config: ConfigView, i: int)
    requires
        0 <= i < config.bindings.len(),
        mentions(config.bindings[i].keys, primary_key()),
    ensures
        specified(config, mirrored(config.bindings[i].keys)) || augmented(config).bindings.contains(
            twin(config.bindings[i]),
        ),
{
    if !specified(config, mirrored(config.bindings[i].keys)) {
        let n = config.bindings.len() as int;
        lemma_twin_listed(config, i, n);
        let twins = binding_twins(config, n);
        let k = choose|k: int| 0 <= k < twins.len() && twins[k] == twin(config.bindings[i]);
        assert(augmented(config).bindings[n + k] == twin(config.bindings[i]));
    }
}

/// After mirroring, every group whose chord holds `win` has its twin among
/// the groups, unless an entry with a chord equivalent to the twin's was
/// there before.
pub proof fn law_group_has_twin(config: ConfigView, i: int)
    requires
        0 <= i < config.app_bindings.len(),
        mentions(config.app_bindings[i].keys, primary_key()),
    ensures
        specified(config, mirrored(config.app_bindings[i].keys)) || augmented(
            config,
        ).app_bindings.contains(group_twin(config.app_bindings[i])),
{
    if !specified(config, mirrored(config.app_bindings[i].keys)) {
        let n = config.app_bindings.len() as int;
        lemma_group_twin_listed(config, i, n);
        let twins = group_twins(config, n);
        let k = choose|k: int| 0 <= k < twins.len() && twins[k] == group_twin(config.app_bindings[i]);
        assert(augmented(config).app_bindings[n + k] == group_twin(config.app_bindings[i]));
    }
}

/// No binding that mirroring adds has a chord equivalent to that of an entry
/// that was there before.
pub proof fn law_added_binding_is_new(config: ConfigView, k: int)
    requires
        config.bindings.len() <= k < augmented(config).bindings.len(),
    ensures
        !specified(config, augmented(config).bindings[k].keys),
{
    let n = config.bindings.len() as int;
    let i = lemma_twin_origin(config, n, k - n);
}

/// No group that mirroring adds has a chord equivalent to that of an entry
/// that was there before.
pub proof fn law_added_group_is_new(config: ConfigView, k: int)
    requires
        config.app_bindings.len() <= k < augmented(config).app_bindings.len(),
    ensures
        !specified(config, augmented(config).app_bindings[k].keys),
{
    let n = config.app_bindings.len() as int;
    let i = lemma_group_twin_origin(config, n, k - n);
}

/// Mirroring keeps a configuration well formed.
pub proof fn law_mirroring_keeps_form(config: ConfigView)
    requires
        config.well_formed(),
    ensures
        augmented(config).well_formed(),
{
    let after = augmented(config);
    let n = config.bindings.len() as int;
    let m = config.app_bindings.len() as int;
    assert forall|k: int| 0 <= k < after.bindings.len() implies (#[trigger] after.bindings[k]).is_plain() by {
        if k >= n {
            let i = lemma_twin_origin(config, n, k - n);
            assert(config.bindings[i].is_plain());
            lemma_position(config.bindings[i].keys, primary_key(), 0);
        } else {
            assert(config.bindings[k].is_plain());
        }
    }
    assert forall|k: int| 0 <= k < after.app_bindings.len() implies (
    #[trigger] after.app_bindings[k]).well_formed() by {
        if k >= m {
            let i = lemma_group_twin_origin(config, m, k - m);
            let group = config.app_bindings[i];
            assert(group.well_formed());
            lemma_position(group.keys, primary_key(), 0);
            let added = group_twin(group);
            assert forall|j: int| 0 <= j < added.members.len() implies (
            #[trigger] added.members[j]).is_member_of(added.keys) by {
                assert(group.members[j].is_member_of(group.keys));
            }
        } else {
            assert(config.app_bindings[k].well_formed());
        }
    }
}

/// Where no two entries have equivalent chords and no chord holds both `win`
/// and `rwin`, no two twins are equivalent.
pub proof fn law_one_sided_twins_differ(config: ConfigView)
    requires
        free_of_duplicates(config),
        one_sided(config),
    ensures
        twins_differ(config),
{
    assert forall|i: int, j: int|
        0 <= i < j < chords(config).len() && wants_twin(config, chords(config)[i]) && wants_twin(
            config,
            chords(config)[j],
        ) implies !equivalent(
        mirrored(#[trigger] chords(config)[i]),
        mirrored(#[trigger] chords(config)[j]),
    ) by {
        let a = chords(config)[i];
        let b = chords(config)[j];
        if equivalent(mirrored(a), mirrored(b)) {
            lemma_mirrored_equivalent(a, b);
        }
    }
}

/// Mirroring, done once, brings no duplicate: where no two entries had
/// equivalent chords, and no two of them get equivalent twins, no two
/// entries have equivalent chords afterwards.
pub proof fn law_mirroring_brings_no_duplicate(config: ConfigView)
    requires
        free_of_duplicates(config),
        twins_differ(config),
    ensures
        free_of_duplicates(augmented(config)),
{
    let after = augmented(config);
    let n = config.bindings.len() as int;
    let m = config.app_bindings.len() as int;
    let tb = binding_twins(config, n).len() as int;
    let tg = group_twins(config, m).len() as int;
    let old_chords = chords(config);
    let new_chords = chords(after);
    assert forall|i: int, j: int| 0 <= i < j < new_chords.len() implies !equivalent(
        #[trigger] new_chords[i],
        #[trigger] new_chords[j],
    ) by {
        // Where each of the two chords comes from: an entry of the
        // configuration, and whether it is that entry's chord or its twin.
        let (ci, ti) = if i < n {
            (i, false)
        } else if i < n + tb {
            (lemma_twin_origin(config, n, i - n), true)
        } else if i < n + tb + m {
            (i - tb, false)
        } else {
            (n + lemma_group_twin_origin(config, m, i - n - tb - m), true)
        };
        let (cj, tj) = if j < n {
            (j, false)
        } else if j < n + tb {
            (lemma_twin_origin(config, n, j - n), true)
        } else if j < n + tb + m {
            (j - tb, false)
        } else {
            (n + lemma_group_twin_origin(config, m, j - n - tb - m), true)
        };
        assert(new_chords[i] == if ti {
            mirrored(old_chords[ci])
        } else {
            old_chords[ci]
        });
        assert(new_chords[j] == if tj {
            mirrored(old_chords[cj])
        } else {
            old_chords[cj]
        });
        if ti && tj {
            if i < n + tb && j < n + tb {
                let (a, b) = lemma_twin_origins(config, n, i - n, j - n);
                assert(old_chords[a] == config.bindings[a].keys);
                assert(old_chords[b] == config.bindings[b].keys);
                assert(!equivalent(mirrored(old_chords[a]), mirrored(old_chords[b])));
            } else if i >= n + tb + m {
                let (a, b) = lemma_group_twin_origins(
                    config,
                    m,
                    i - n - tb - m,
                    j - n - tb - m,
                );
                assert(old_chords[n + a] == config.app_bindings[a].keys);
                assert(old_chords[n + b] == config.app_bindings[b].keys);
                assert(!equivalent(mirrored(old_chords[n + a]), mirrored(old_chords[n + b])));
            } else {
                assert(old_chords[ci] == config.bindings[ci].keys);
                assert(old_chords[cj] == config.app_bindings[cj - n].keys);
                assert(!equivalent(mirrored(old_chords[ci]), mirrored(old_chords[cj])));
            }
        } else if ti {
            lemma_unspecified(config, new_chords[i], cj);
        } else if tj {
            lemma_unspecified(config, new_chords[j], ci);
        } else {
            assert(ci < cj);
            assert(!equivalent(old_chords[ci], old_chords[cj]));
        }
    }
}

} // verus!
