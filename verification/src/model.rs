//! The configuration as data: the shell, a binding, and the whole file.

use vstd::prelude::*;
use vstd::string::*;

verus! {

/// A chord as contracts see it: key names in the order written, the last one
/// being the trigger.
pub type Chord = Seq<Seq<char>>;

/// The interactive shell that commands are forwarded to.
#[derive(Debug, Copy, Clone, PartialEq, Eq, Structural)]
pub enum Shell {
    Cmd,
    Powershell,
    Pwsh,
}

impl Shell {
    /// The shell that a name in a `.shell` directive stands for.
    pub open spec fn of_name(name: Seq<char>) -> Option<Shell> {
        if name == "pwsh"@ {
            Some(Shell::Pwsh)
        } else if name == "powershell"@ {
            Some(Shell::Powershell)
        } else if name == "cmd"@ {
            Some(Shell::Cmd)
        } else {
            None
        }
    }

    /// The executable's name, which is also the name in the directive.
    pub open spec fn name(self) -> Seq<char> {
        match self {
            Shell::Cmd => "cmd"@,
            Shell::Powershell => "powershell"@,
            Shell::Pwsh => "pwsh"@,
        }
    }

    /// Whether the shell belongs to the PowerShell family.
    pub open spec fn is_powershell_family(self) -> bool {
        self == Shell::Pwsh || self == Shell::Powershell
    }

    /// The line written to a fresh session before any command.
    pub open spec fn priming(self) -> Seq<char> {
        if self.is_powershell_family() {
            "$wshell = New-Object -ComObject wscript.shell"@
        } else {
            "prompt $S"@
        }
    }

    /// The arguments that make the shell read commands from its input.
    pub open spec fn arguments(self) -> Seq<Seq<char>> {
        if self.is_powershell_family() {
            seq!["-Command"@, "-"@]
        } else {
            seq!["-"@]
        }
    }

    /// Looks a shell up by its name; `None` for any other text.
    pub fn from_name(name: &str) -> (r: Option<Shell>)
        ensures
            r == Shell::of_name(name@),
    {
        let given = String::from_str(name);
        if given == String::from_str("pwsh") {
            Some(Shell::Pwsh)
        } else if given == String::from_str("powershell") {
            Some(Shell::Powershell)
        } else if given == String::from_str("cmd") {
            Some(Shell::Cmd)
        } else {
            None
        }
    }

    /// The shell named by `value`, which must be one of the three names.
    pub fn from(value: String) -> (r: Shell)
        requires
            Shell::of_name(value@) is Some,
        ensures
            Some(r) == Shell::of_name(value@),
    {
        match Shell::from_name(value.as_str()) {
            Some(shell) => shell,
            None => Shell::Cmd,
        }
    }

    /// The executable's name as text.
    pub fn to_string(&self) -> (r: String)
        ensures
            r@ == self.name(),
    {
        match self {
            Shell::Cmd => String::from_str("cmd"),
            Shell::Powershell => String::from_str("powershell"),
            Shell::Pwsh => String::from_str("pwsh"),
        }
    }

    /// Whether commands are echoed before they are written.
    pub fn echoes(&self) -> (r: bool)
        ensures
            r == self.is_powershell_family(),
    {
        match self {
            Shell::Cmd => false,
            Shell::Powershell => true,
            Shell::Pwsh => true,
        }
    }

    /// The setup line for a fresh session.
    pub fn priming_line(&self) -> (r: String)
        ensures
            r@ == self.priming(),
    {
        if self.echoes() {
            String::from_str("$wshell = New-Object -ComObject wscript.shell")
        } else {
            String::from_str("prompt $S")
        }
    }

    /// The launch arguments of the shell's process.
    pub fn launch_args(&self) -> (r: Vec<String>)
        ensures
            keys_view(r@) == self.arguments(),
    {
        let mut args: Vec<String> = Vec::new();
        if self.echoes() {
            args.push(String::from_str("-Command"));
        }
        args.push(String::from_str("-"));
        assert(keys_view(args@) =~= self.arguments());
        args
    }
}

/// Each shell is the one that its own name stands for.
pub proof fn law_shell_names_differ(shell: Shell)
    ensures
        Shell::of_name(shell.name()) == Some(shell),
{
    reveal_strlit("pwsh");
    reveal_strlit("powershell");
    reveal_strlit("cmd");
    assert("powershell"@.len() != "pwsh"@.len());
    assert("cmd"@.len() != "pwsh"@.len());
    assert("cmd"@.len() != "powershell"@.len());
}

/// The key names of a chord, each by its characters.
pub open spec fn keys_view(keys: Seq<String>) -> Chord {
    keys.map_values(|k: String| k@)
}

/// One hotkey and the command it triggers.
#[derive(Debug, Clone, PartialEq, Eq)]
pub struct HotkeyBinding {
    pub keys: Vec<String>,
    pub command: String,
    pub process_name: Option<String>,
}

/// A binding as contracts see it.
pub struct BindingView {
    pub keys: Chord,
    pub command: Seq<char>,
    pub process_name: Option<Seq<char>>,
}

/// One bracketed block of the file: a chord and its entries per application.
pub struct GroupView {
    pub keys: Chord,
    pub members: Seq<BindingView>,
}

/// A configuration as contracts see it.
pub struct ConfigView {
    pub shell: Shell,
    pub app_bindings: Seq<GroupView>,
    pub bindings: Seq<BindingView>,
    pub pause_binding: Option<Chord>,
    pub pause_hook: Option<Seq<char>>,
}

/// An optional text by its characters.
pub open spec fn text_view(text: Option<String>) -> Option<Seq<char>> {
    match text {
        Some(t) => Some(t@),
        None => None,
    }
}

/// An optional chord by its key names.
pub open spec fn chord_view(keys: Option<Vec<String>>) -> Option<Chord> {
    match keys {
        Some(k) => Some(keys_view(k@)),
        None => None,
    }
}

/// A list of bindings, each by its view.
pub open spec fn bindings_view(bindings: Seq<HotkeyBinding>) -> Seq<BindingView> {
    bindings.map_values(|b: HotkeyBinding| b@)
}

/// One group by its view.
pub open spec fn group_view(group: (Vec<String>, Vec<HotkeyBinding>)) -> GroupView {
    GroupView { keys: keys_view(group.0@), members: bindings_view(group.1@) }
}

/// A list of groups, each by its view.
pub open spec fn groups_view(groups: Seq<(Vec<String>, Vec<HotkeyBinding>)>) -> Seq<GroupView> {
    groups.map_values(|g: (Vec<String>, Vec<HotkeyBinding>)| group_view(g))
}

impl View for HotkeyBinding {
    type V = BindingView;

    open spec fn view(&self) -> BindingView {
        BindingView {
            keys: keys_view(self.keys@),
            command: self.command@,
            process_name: text_view(self.process_name),
        }
    }
}

/// The parsed configuration file.
#[derive(Debug, Clone, PartialEq, Eq)]
pub struct Whkdrc {
    pub shell: Shell,
    pub app_bindings: Vec<(Vec<String>, Vec<HotkeyBinding>)>,
    pub bindings: Vec<HotkeyBinding>,
    pub pause_binding: Option<Vec<String>>,
    pub pause_hook: Option<String>,
}

impl View for Whkdrc {
    type V = ConfigView;

    open spec fn view(&self) -> ConfigView {
        ConfigView {
            shell: self.shell,
            app_bindings: groups_view(self.app_bindings@),
            bindings: bindings_view(self.bindings@),
            pause_binding: chord_view(self.pause_binding),
            pause_hook: text_view(self.pause_hook),
        }
    }
}

impl BindingView {
    /// A plain binding has a chord and no scope.
    pub open spec fn is_plain(self) -> bool {
        self.keys.len() >= 1 && self.process_name is None
    }

    /// An entry of a group carries the group's chord and a scope.
    pub open spec fn is_member_of(self, keys: Chord) -> bool {
        self.keys == keys && self.process_name is Some
    }
}

impl GroupView {
    /// A group has a chord and at least one entry, each with that chord.
    pub open spec fn well_formed(self) -> bool {
        &&& self.keys.len() >= 1
        &&& self.members.len() >= 1
        &&& forall|i: int| 0 <= i < self.members.len() ==> (#[trigger] self.members[i]).is_member_of(self.keys)
    }
}

impl ConfigView {
    /// What holds of every configuration that the grammar yields, before and
    /// after mirroring.
    pub open spec fn well_formed(self) -> bool {
        &&& self.bindings.len() >= 1
        &&& forall|i: int| 0 <= i < self.bindings.len() ==> (#[trigger] self.bindings[i]).is_plain()
        &&& forall|i: int| 0 <= i < self.app_bindings.len() ==> (#[trigger] self.app_bindings[i]).well_formed()
        &&& self.pause_binding matches Some(keys) ==> keys.len() >= 1
    }
}

/// A copy of a chord.
pub fn copy_keys(keys: &Vec<String>) -> (r: Vec<String>)
    ensures
        r@ == keys@,
{
    let mut out: Vec<String> = Vec::new();
    let mut i: usize = 0;
    while i < keys.len()
        invariant
            i <= keys.len(),
            out@ == keys@.take(i as int),
        decreases keys.len() - i,
    {
        out.push(keys[i].clone());
        assert(out@ =~= keys@.take(i + 1));
        i += 1;
    }
    assert(keys@.take(keys.len() as int) =~= keys@);
    out
}

/// A copy of an optional text.
pub fn copy_text(text: &Option<String>) -> (r: Option<String>)
    ensures
        r == *text,
{
    match text {
        Some(t) => Some(t.clone()),
        None => None,
    }
}

/// A copy of a binding.
pub fn copy_binding(binding: &HotkeyBinding) -> (r: HotkeyBinding)
    ensures
        r@ == binding@,
{
    HotkeyBinding {
        keys: copy_keys(&binding.keys),
        command: binding.command.clone(),
        process_name: copy_text(&binding.process_name),
    }
}

} // verus!
