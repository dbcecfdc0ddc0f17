//! What a fired hotkey does: the table of hotkeys to register, the choice of
//! a command by the application in front, and the pause gate.

use crate::grammar::{default_word, ignore_word};
use crate::model::{
    bindings_view, copy_binding, copy_keys, copy_text, group_view, groups_view, keys_view,
    text_view, BindingView, Chord, ConfigView, GroupView, HotkeyBinding, Whkdrc,
};
use vstd::prelude::*;
use vstd::string::*;

verus! {

/// The first place at or after `from` where an entry for `scope` stands, or
/// the number of entries where none does.
pub open spec fn scoped_from(members: Seq<BindingView>, scope: Seq<char>, from: int) -> int
    decreases members.len() - from,
{
    if 0 <= from < members.len() {
        if members[from].process_name == Some(scope) {
            from
        } else {
            scoped_from(members, scope, from + 1)
        }
    } else {
        members.len() as int
    }
}

/// The place of the first entry for the application in front, or the number
/// of entries where there is none or no application is known.
pub open spec fn exact_place(members: Seq<BindingView>, active: Option<Seq<char>>) -> int {
    match active {
        Some(name) => scoped_from(members, name, 0),
        None => members.len() as int,
    }
}

/// The entry that decides: the first one for the application in front; where
/// there is none, the first `Default` entry.
pub open spec fn winner(members: Seq<BindingView>, active: Option<Seq<char>>) -> Option<
    BindingView,
> {
    if exact_place(members, active) < members.len() {
        Some(members[exact_place(members, active)])
    } else if scoped_from(members, default_word(), 0) < members.len() {
        Some(members[scoped_from(members, default_word(), 0)])
    } else {
        None
    }
}

/// The command to forward when a group's hotkey fires: that of the deciding
/// entry, unless it is `Ignore`; none where no entry decides.
pub open spec fn resolution(members: Seq<BindingView>, active: Option<Seq<char>>) -> Option<
    Seq<char>,
> {
    match winner(members, active) {
        Some(entry) => if entry.command == ignore_word() {
            None
        } else {
            Some(entry.command)
        },
        None => None,
    }
}

/// The place found for a scope holds an entry for it, and no earlier place
/// does; where no entry is for the scope, it is the number of entries.
pub proof fn lemma_scoped(members: Seq<BindingView>, scope: Seq<char>, from: int)
    requires
        0 <= from <= members.len(),
    ensures
        from <= scoped_from(members, scope, from) <= members.len(),
        scoped_from(members, scope, from) < members.len() ==> members[scoped_from(
            members,
            scope,
            from,
        )].process_name == Some(scope),
        forall|i: int|
            from <= i < scoped_from(members, scope, from) ==> members[i].process_name != Some(
                scope,
            ),
    decreases members.len() - from,
{
    if from < members.len() && members[from].process_name != Some(scope) {
        lemma_scoped(members, scope, from + 1);
    }
}

/// Where a group holds an entry for the application in front, the first such
/// entry decides, whether or not a `Default` entry stands before it.
pub proof fn law_exact_match_wins(members: Seq<BindingView>, active: Seq<char>, i: int)
    requires
        0 <= i < members.len(),
        members[i].process_name == Some(active),
    ensures
        0 <= exact_place(members, Some(active)) <= i,
        winner(members, Some(active)) == Some(members[exact_place(members, Some(active))]),
        members[exact_place(members, Some(active))].process_name == Some(active),
        forall|j: int|
            0 <= j < exact_place(members, Some(active)) ==> members[j].process_name != Some(
                active,
            ),
{
    lemma_scoped(members, active, 0);
}

/// Where no entry is for the application in front, or none is known, the
/// first `Default` entry decides; where there is none either, nothing does.
pub proof fn law_default_is_fallback(members: Seq<BindingView>, active: Option<Seq<char>>)
    requires
        active matches Some(name) ==> forall|i: int|
            0 <= i < members.len() ==> members[i].process_name != Some(name),
    ensures
        winner(members, active) == if scoped_from(members, default_word(), 0) < members.len() {
            Some(members[scoped_from(members, default_word(), 0)])
        } else {
            None
        },
        winner(members, active) is None <==> forall|i: int|
            0 <= i < members.len() ==> members[i].process_name != Some(default_word()),
{
    lemma_scoped(members, default_word(), 0);
    if let Some(name) = active {
        lemma_scoped(members, name, 0);
    }
}

/// `Ignore` on the deciding entry means that nothing is forwarded, whatever
/// the other entries say; any other command of the deciding entry is
/// forwarded, whatever the other entries say.
pub proof fn law_ignore_suppresses(members: Seq<BindingView>, active: Option<Seq<char>>)
    requires
        winner(members, active) is Some,
    ensures
        winner(members, active)->0.command == ignore_word() ==> resolution(members, active)
            is None,
        winner(members, active)->0.command != ignore_word() ==> resolution(members, active)
            == Some(winner(members, active)->0.command),
{
}

/// An optional name by its characters.
pub open spec fn name_view(name: Option<&str>) -> Option<Seq<char>> {
    match name {
        Some(n) => Some(n@),
        None => None,
    }
}

/// The place of the first entry for `scope`, or the number of entries.
fn find_scoped(members: &Vec<HotkeyBinding>, scope: &String) -> (r: usize)
    ensures
        r == scoped_from(bindings_view(members@), scope@, 0),
        r <= members.len(),
{
    let mut i: usize = 0;
    while i < members.len()
        invariant
            i <= members.len(),
            scoped_from(bindings_view(members@), scope@, i as int) == scoped_from(
                bindings_view(members@),
                scope@,
                0,
            ),
        decreases members.len() - i,
    {
        let found = match &members[i].process_name {
            Some(name) => *name == *scope,
            None => false,
        };
        if found {
            return i;
        }
        i += 1;
    }
    i
}

/// Chooses the command to forward for a group whose hotkey fired while the
/// application `active` was in front; `None` for `active` where the query
/// failed. An entry for that application decides before any `Default`
/// entry, wherever the two stand; `Ignore` on the deciding entry means that
/// nothing is forwarded.
pub fn resolve(members: &Vec<HotkeyBinding>, active: Option<&str>) -> (r: Option<String>)
    ensures
        text_view(r) == resolution(bindings_view(members@), name_view(active)),
{
    let exact = match active {
        Some(name) => find_scoped(members, &String::from_str(name)),
        None => members.len(),
    };
    let place = if exact < members.len() {
        exact
    } else {
        find_scoped(members, &String::from_str("Default"))
    };
    if place < members.len() {
        if members[place].command == String::from_str("Ignore") {
            None
        } else {
            Some(members[place].command.clone())
        }
    } else {
        None
    }
}

/// The first place at or after `from` where a group with the chord `keys`
/// stands in `table`, or the table's length.
pub open spec fn slot_from(table: Seq<GroupView>, keys: Chord, from: int) -> int
    decreases table.len() - from,
{
    if 0 <= from < table.len() {
        if table[from].keys == keys {
            from
        } else {
            slot_from(table, keys, from + 1)
        }
    } else {
        table.len() as int
    }
}

/// The table with one more group: its entries join those of the group with
/// the same chord, that is the same keys in the same order; where there is
/// none, the group is the table's last.
pub open spec fn with_group(table: Seq<GroupView>, group: GroupView) -> Seq<GroupView> {
    let at = slot_from(table, group.keys, 0);
    if at < table.len() {
        table.update(at, GroupView { keys: group.keys, members: table[at].members + group.members })
    } else {
        table.push(group)
    }
}

/// The first `n` groups merged by chord: one group for each distinct chord,
/// in the order in which the chords first appear, with all entries for the
/// chord in the order written.
pub open spec fn merged(groups: Seq<GroupView>, n: int) -> Seq<GroupView>
    decreases n,
{
    if n <= 0 || n > groups.len() {
        Seq::empty()
    } else {
        with_group(merged(groups, n - 1), groups[n - 1])
    }
}

/// A slot is a place in the table where the chord stands, with no earlier
/// one; or the table's length where there is none.
pub proof fn lemma_slot(table: Seq<GroupView>, keys: Chord, from: int)
    requires
        0 <= from <= table.len(),
    ensures
        from <= slot_from(table, keys, from) <= table.len(),
        slot_from(table, keys, from) < table.len() ==> table[slot_from(table, keys, from)].keys
            == keys,
        forall|i: int| from <= i < slot_from(table, keys, from) ==> table[i].keys != keys,
    decreases table.len() - from,
{
    if from < table.len() && table[from].keys != keys {
        lemma_slot(table, keys, from + 1);
    }
}

/// Merging keeps every chord of the table and adds that of the group.
pub proof fn lemma_with_group_chords(table: Seq<GroupView>, group: GroupView)
    ensures
        with_group(table, group).len() >= table.len(),
        forall|i: int|
            0 <= i < table.len() ==> with_group(table, group)[i].keys == (#[trigger] table[i]).keys,
        with_group(table, group).len() == table.len() || (with_group(table, group).len()
            == table.len() + 1 && with_group(table, group)[table.len() as int].keys == group.keys
            && forall|i: int| 0 <= i < table.len() ==> (#[trigger] table[i]).keys != group.keys),
{
    lemma_slot(table, group.keys, 0);
}

/// In the merged table no chord stands twice: each distinct chord is
/// registered once.
pub proof fn law_merged_chords_differ(groups: Seq<GroupView>, n: int, i: int, j: int)
    requires
        0 <= n <= groups.len(),
        0 <= i < j < merged(groups, n).len(),
    ensures
        merged(groups, n)[i].keys != merged(groups, n)[j].keys,
    decreases n,
{
    let table = merged(groups, n - 1);
    let after = merged(groups, n);
    lemma_with_group_chords(table, groups[n - 1]);
    assert(after[i].keys == table[i].keys);
    if j < table.len() {
        law_merged_chords_differ(groups, n - 1, i, j);
        assert(after[j].keys == table[j].keys);
    }
}

/// Every group's chord is in the merged table.
pub proof fn law_merged_holds_every_chord(groups: Seq<GroupView>, n: int, k: int)
    requires
        0 <= k < n <= groups.len(),
    ensures
        slot_from(merged(groups, n), groups[k].keys, 0) < merged(groups, n).len(),
    decreases n,
{
    let table = merged(groups, n - 1);
    let after = merged(groups, n);
    lemma_with_group_chords(table, groups[n - 1]);
    lemma_slot(after, groups[k].keys, 0);
    if k < n - 1 {
        law_merged_holds_every_chord(groups, n - 1, k);
        lemma_slot(table, groups[k].keys, 0);
        let at = slot_from(table, groups[k].keys, 0);
        assert(after[at].keys == groups[k].keys);
    } else {
        lemma_slot(table, groups[k].keys, 0);
        let at = slot_from(table, groups[k].keys, 0);
        if at < table.len() {
            assert(after[at].keys == groups[k].keys);
        } else {
            assert(after[table.len() as int].keys == groups[k].keys);
        }
    }
}

/// Whether two chords are the same keys in the same order.
pub fn same_chord(a: &Vec<String>, b: &Vec<String>) -> (r: bool)
    ensures
        r == (keys_view(a@) == keys_view(b@)),
{
    if a.len() != b.len() {
        assert(keys_view(a@).len() != keys_view(b@).len());
        return false;
    }
    let mut i: usize = 0;
    while i < a.len()
        invariant
            i <= a.len(),
            a.len() == b.len(),
            forall|j: int| 0 <= j < i ==> keys_view(a@)[j] == keys_view(b@)[j],
        decreases a.len() - i,
    {
        if a[i] != b[i] {
            assert(keys_view(a@)[i as int] != keys_view(b@)[i as int]);
            return false;
        }
        i += 1;
    }
    assert(keys_view(a@) =~= keys_view(b@));
    true
}

/// The place of the group with the chord `keys` in `table`, or its length.
fn find_slot(table: &Vec<(Vec<String>, Vec<HotkeyBinding>)>, keys: &Vec<String>) -> (r: usize)
    ensures
        r == slot_from(groups_view(table@), keys_view(keys@), 0),
        r <= table.len(),
{
    let mut i: usize = 0;
    while i < table.len()
        invariant
            i <= table.len(),
            slot_from(groups_view(table@), keys_view(keys@), i as int) == slot_from(
                groups_view(table@),
                keys_view(keys@),
                0,
            ),
        decreases table.len() - i,
    {
        if same_chord(&table[i].0, keys) {
            return i;
        }
        i += 1;
    }
    i
}

/// Adds copies of `more` to the end of `members`.
fn extend(members: &mut Vec<HotkeyBinding>, more: &Vec<HotkeyBinding>)
    ensures
        bindings_view(final(members)@) == bindings_view(old(members)@) + bindings_view(more@),
{
    let mut i: usize = 0;
    assert(bindings_view(members@) =~= bindings_view(old(members)@) + bindings_view(more@).take(0));
    while i < more.len()
        invariant
            i <= more.len(),
            bindings_view(members@) == bindings_view(old(members)@) + bindings_view(more@).take(
                i as int,
            ),
        decreases more.len() - i,
    {
        let ghost before = bindings_view(members@);
        let copy = copy_binding(&more[i]);
        members.push(copy);
        assert(bindings_view(members@) =~= before.push(copy@));
        assert(bindings_view(more@).take(i + 1) =~= bindings_view(more@).take(i as int).push(
            copy@,
        ));
        assert(bindings_view(members@) =~= bindings_view(old(members)@) + bindings_view(
            more@,
        ).take(i + 1));
        i += 1;
    }
    assert(bindings_view(more@).take(more.len() as int) =~= bindings_view(more@));
}

/// Merges the groups by chord, for one registration per distinct chord. Two
/// groups are merged when their chords are the same keys in the same order.
pub fn merge_groups(groups: &Vec<(Vec<String>, Vec<HotkeyBinding>)>) -> (r: Vec<
    (Vec<String>, Vec<HotkeyBinding>),
>)
    ensures
        groups_view(r@) == merged(groups_view(groups@), groups.len() as int),
{
    let mut table: Vec<(Vec<String>, Vec<HotkeyBinding>)> = Vec::new();
    let mut i: usize = 0;
    assert(groups_view(table@) =~= merged(groups_view(groups@), 0));
    while i < groups.len()
        invariant
            i <= groups.len(),
            groups_view(table@) == merged(groups_view(groups@), i as int),
        decreases groups.len() - i,
    {
        let ghost before = groups_view(table@);
        let ghost group = groups_view(groups@)[i as int];
        let at = find_slot(&table, &groups[i].0);
        proof {
            lemma_slot(before, group.keys, 0);
        }
        if at < table.len() {
            let (keys, mut members) = table.remove(at);
            extend(&mut members, &groups[i].1);
            let joined = (keys, members);
            table.insert(at, joined);
            assert(group_view(joined) == GroupView {
                keys: group.keys,
                members: before[at as int].members + group.members,
            });
            assert(groups_view(table@) =~= before.update(at as int, group_view(joined)));
        } else {
            let mut members: Vec<HotkeyBinding> = Vec::new();
            assert(bindings_view(members@) =~= Seq::empty());
            extend(&mut members, &groups[i].1);
            assert(bindings_view(members@) =~= group.members);
            let added = (copy_keys(&groups[i].0), members);
            table.push(added);
            assert(groups_view(table@) =~= before.push(group_view(added)));
        }
        i += 1;
    }
    table
}

/// A hotkey ready for registration: the modifiers in the order written, the
/// trigger key, and what to forward.
#[derive(Debug, Clone, PartialEq, Eq)]
pub struct HkmData {
    pub mod_keys: Vec<String>,
    pub vkey: String,
    pub command: String,
    pub process_name: Option<String>,
}

/// A hotkey ready for registration, as contracts see it.
pub struct HkmView {
    pub mod_keys: Chord,
    pub vkey: Seq<char>,
    pub command: Seq<char>,
    pub process_name: Option<Seq<char>>,
}

impl View for HkmData {
    type V = HkmView;

    open spec fn view(&self) -> HkmView {
        HkmView {
            mod_keys: keys_view(self.mod_keys@),
            vkey: self.vkey@,
            command: self.command@,
            process_name: text_view(self.process_name),
        }
    }
}

/// A binding split for registration: the last key is the trigger, the keys
/// before it are the modifiers.
pub open spec fn split(binding: BindingView) -> HkmView {
    HkmView {
        mod_keys: binding.keys.drop_last(),
        vkey: binding.keys.last(),
        command: binding.command,
        process_name: binding.process_name,
    }
}

/// An optional split binding by its view.
pub open spec fn hkm_view(data: Option<HkmData>) -> Option<HkmView> {
    match data {
        Some(d) => Some(d@),
        None => None,
    }
}

/// Splits a chord for registration: the modifiers in the order written, and
/// the trigger, which is the last key. `None` for a chord without keys.
pub fn split_chord(keys: &Vec<String>) -> (r: Option<(Vec<String>, String)>)
    ensures
        r is Some <==> keys.len() > 0,
        r matches Some((mod_keys, trigger)) ==> keys_view(mod_keys@) == keys_view(
            keys@,
        ).drop_last() && trigger@ == keys_view(keys@).last(),
{
    if keys.len() == 0 {
        return None;
    }
    let last = keys.len() - 1;
    let mut mod_keys: Vec<String> = Vec::new();
    let mut i: usize = 0;
    while i < last
        invariant
            i <= last < keys.len(),
            keys_view(mod_keys@) =~= keys_view(keys@).take(i as int),
        decreases last - i,
    {
        let ghost before = keys_view(mod_keys@);
        mod_keys.push(keys[i].clone());
        assert(keys_view(mod_keys@) =~= before.push(keys_view(keys@)[i as int]));
        i += 1;
    }
    assert(keys_view(mod_keys@) =~= keys_view(keys@).drop_last());
    Some((mod_keys, keys[last].clone()))
}

impl HkmData {
    /// Splits a binding's chord into modifiers and trigger; `None` for a
    /// binding without keys.
    pub fn try_from(value: &HotkeyBinding) -> (r: Option<HkmData>)
        ensures
            hkm_view(r) == if value@.keys.len() == 0 {
                None
            } else {
                Some(split(value@))
            },
    {
        match split_chord(&value.keys) {
            Some((mod_keys, vkey)) => Some(
                HkmData {
                    mod_keys,
                    vkey,
                    command: value.command.clone(),
                    process_name: copy_text(&value.process_name),
                },
            ),
            None => None,
        }
    }
}

/// What a registered hotkey does when it fires.
#[derive(Debug, Clone, PartialEq, Eq)]
pub enum Hotkey {
    /// A plain binding: always the same command.
    Plain { command: String },
    /// A group: the command depends on the application in front.
    Group { members: Vec<HotkeyBinding> },
    /// The pause hotkey, with the hook to forward on every press.
    Pause { hook: Option<String> },
}

/// A hotkey's action as contracts see it.
pub enum HotkeyView {
    Plain { command: Seq<char> },
    Group { members: Seq<BindingView> },
    Pause { hook: Option<Seq<char>> },
}

impl View for Hotkey {
    type V = HotkeyView;

    open spec fn view(&self) -> HotkeyView {
        match self {
            Hotkey::Plain { command } => HotkeyView::Plain { command: command@ },
            Hotkey::Group { members } => HotkeyView::Group { members: bindings_view(members@) },
            Hotkey::Pause { hook } => HotkeyView::Pause { hook: text_view(*hook) },
        }
    }
}

/// What follows from a fired hotkey: whether the daemon is paused from now
/// on, and the command to forward, if any.
pub struct FiredView {
    pub paused: bool,
    pub forward: Option<Seq<char>>,
}

/// The effect of a fired hotkey. The pause hotkey flips the pause and
/// forwards its hook either way. Any other hotkey leaves the pause as it is
/// and forwards nothing while paused; else a plain binding forwards its
/// command and a group the command that the application in front decides.
pub open spec fn fired(paused: bool, hotkey: HotkeyView, active: Option<Seq<char>>) -> FiredView {
    match hotkey {
        HotkeyView::Pause { hook } => FiredView { paused: !paused, forward: hook },
        HotkeyView::Plain { command } => FiredView {
            paused,
            forward: if paused {
                None
            } else {
                Some(command)
            },
        },
        HotkeyView::Group { members } => FiredView {
            paused,
            forward: if paused {
                None
            } else {
                resolution(members, active)
            },
        },
    }
}

/// The pause gate: whether hotkeys other than the pause hotkey take effect.
#[derive(Debug, Clone, Copy, PartialEq, Eq, Structural)]
pub struct Gate {
    pub paused: bool,
}

impl Gate {
    /// A gate that lets every hotkey through.
    pub fn new() -> (r: Gate)
        ensures
            !r.paused,
    {
        Gate { paused: false }
    }

    /// Answers a fired hotkey: updates the pause and returns the command to
    /// forward, if any. `active` is the application in front, `None` where
    /// the query failed.
    pub fn fire(&mut self, hotkey: &Hotkey, active: Option<&str>) -> (r: Option<String>)
        ensures
            final(self).paused == fired(old(self).paused, hotkey@, name_view(active)).paused,
            text_view(r) == fired(old(self).paused, hotkey@, name_view(active)).forward,
    {
        match hotkey {
            Hotkey::Pause { hook } => {
                self.paused = !self.paused;
                copy_text(hook)
            },
            Hotkey::Plain { command } => {
                if self.paused {
                    None
                } else {
                    Some(command.clone())
                }
            },
            Hotkey::Group { members } => {
                if self.paused {
                    None
                } else {
                    resolve(members, active)
                }
            },
        }
    }
}

/// One hotkey to register: its chord in the order written and what it does.
#[derive(Debug, Clone, PartialEq, Eq)]
pub struct Registration {
    pub keys: Vec<String>,
    pub hotkey: Hotkey,
}

/// A registration as contracts see it.
pub struct RegistrationView {
    pub keys: Chord,
    pub hotkey: HotkeyView,
}

impl View for Registration {
    type V = RegistrationView;

    open spec fn view(&self) -> RegistrationView {
        RegistrationView { keys: keys_view(self.keys@), hotkey: self.hotkey@ }
    }
}

/// A list of registrations, each by its view.
pub open spec fn registrations_view(list: Seq<Registration>) -> Seq<RegistrationView> {
    list.map_values(|r: Registration| r@)
}

/// The registration of the pause hotkey, where one is configured.
pub open spec fn pause_registration(config: ConfigView) -> Seq<RegistrationView> {
    match config.pause_binding {
        Some(keys) => seq![
            RegistrationView { keys, hotkey: HotkeyView::Pause { hook: config.pause_hook } },
        ],
        None => Seq::empty(),
    }
}

/// One registration for each group of a merged table.
pub open spec fn group_registrations(table: Seq<GroupView>) -> Seq<RegistrationView> {
    table.map_values(
        |g: GroupView|
            RegistrationView { keys: g.keys, hotkey: HotkeyView::Group { members: g.members } },
    )
}

/// One registration for each plain binding.
pub open spec fn plain_registrations(bindings: Seq<BindingView>) -> Seq<RegistrationView> {
    bindings.map_values(
        |b: BindingView|
            RegistrationView { keys: b.keys, hotkey: HotkeyView::Plain { command: b.command } },
    )
}

/// Everything to register for a configuration: the pause hotkey, then one
/// hotkey for each distinct chord of the groups, then every plain binding.
pub open spec fn registrations(config: ConfigView) -> Seq<RegistrationView> {
    pause_registration(config) + group_registrations(
        merged(config.app_bindings, config.app_bindings.len() as int),
    ) + plain_registrations(config.bindings)
}

impl Whkdrc {
    /// The hotkeys to register, each with what it does when it fires.
    pub fn registrations(&self) -> (r: Vec<Registration>)
        ensures
            registrations_view(r@) == registrations(self@),
    {
        let mut list: Vec<Registration> = Vec::new();
        match &self.pause_binding {
            Some(keys) => {
                let first = Registration {
                    keys: copy_keys(keys),
                    hotkey: Hotkey::Pause { hook: copy_text(&self.pause_hook) },
                };
                list.push(first);
            },
            None => {},
        }
        assert(registrations_view(list@) =~= pause_registration(self@));
        let table = merge_groups(&self.app_bindings);
        let ghost grouped = group_registrations(groups_view(table@));
        let mut i: usize = 0;
        while i < table.len()
            invariant
                i <= table.len(),
                grouped == group_registrations(groups_view(table@)),
                registrations_view(list@) =~= pause_registration(self@) + grouped.take(i as int),
            decreases table.len() - i,
        {
            let ghost before = registrations_view(list@);
            let mut members: Vec<HotkeyBinding> = Vec::new();
            assert(bindings_view(members@) =~= Seq::empty());
            extend(&mut members, &table[i].1);
            assert(bindings_view(members@) =~= bindings_view(table[i as int].1@));
            let next = Registration { keys: copy_keys(&table[i].0), hotkey: Hotkey::Group { members } };
            list.push(next);
            assert(registrations_view(list@) =~= before.push(next@));
            assert(next@ == grouped[i as int]);
            assert(grouped.take(i + 1) =~= grouped.take(i as int).push(grouped[i as int]));
            i += 1;
        }
        assert(grouped.take(table.len() as int) =~= grouped);
        let ghost plain = plain_registrations(self@.bindings);
        let mut j: usize = 0;
        while j < self.bindings.len()
            invariant
                j <= self.bindings.len(),
                plain == plain_registrations(self@.bindings),
                registrations_view(list@) =~= pause_registration(self@) + grouped + plain.take(
                    j as int,
                ),
            decreases self.bindings.len() - j,
        {
            let ghost before = registrations_view(list@);
            let next = Registration {
                keys: copy_keys(&self.bindings[j].keys),
                hotkey: Hotkey::Plain { command: self.bindings[j].command.clone() },
            };
            list.push(next);
            assert(registrations_view(list@) =~= before.push(next@));
            assert(next@ == plain[j as int]);
            assert(plain.take(j + 1) =~= plain.take(j as int).push(plain[j as int]));
            j += 1;
        }
        assert(plain.take(self.bindings.len() as int) =~= plain);
        list
    }
}

/// Every chord of the merged table is the chord of one of the groups.
pub proof fn lemma_merged_chord_origin(groups: Seq<GroupView>, n: int, i: int) -> (k: int)
    requires
        0 <= n <= groups.len(),
        0 <= i < merged(groups, n).len(),
    ensures
        0 <= k < n,
        groups[k].keys == merged(groups, n)[i].keys,
    decreases n,
{
    let table = merged(groups, n - 1);
    lemma_with_group_chords(table, groups[n - 1]);
    if i < table.len() {
        assert(merged(groups, n)[i].keys == table[i].keys);
        lemma_merged_chord_origin(groups, n - 1, i)
    } else {
        n - 1
    }
}

/// Every hotkey to register for a well-formed configuration has a trigger
/// key: none is skipped for want of keys.
pub proof fn law_registrations_have_keys(config: ConfigView, i: int)
    requires
        config.well_formed(),
        0 <= i < registrations(config).len(),
    ensures
        registrations(config)[i].keys.len() >= 1,
{
    let pause = pause_registration(config);
    let table = merged(config.app_bindings, config.app_bindings.len() as int);
    let grouped = group_registrations(table);
    if i < pause.len() {
    } else if i < pause.len() + grouped.len() {
        let at = i - pause.len();
        let k = lemma_merged_chord_origin(
            config.app_bindings,
            config.app_bindings.len() as int,
            at,
        );
        assert(config.app_bindings[k].well_formed());
        assert(registrations(config)[i] == grouped[at]);
    } else {
        let at = i - pause.len() - grouped.len();
        assert(config.bindings[at].is_plain());
        assert(registrations(config)[i] == plain_registrations(config.bindings)[at]);
    }
}

} // verus!
