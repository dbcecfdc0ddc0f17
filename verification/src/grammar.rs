//! The grammar of the configuration file, stated on characters.
//!
//! ```text
//! file    = blank shell [pause] [hook] {group} binding {binding}
//! shell   = ".shell" space ("cmd" | "powershell" | "pwsh") blank
//! pause   = ".pause" space chord blank
//! hook    = ".pause_hook" command blank
//! group   = chord "[" blank member {member} "]" blank
//! member  = scope ":" ("Ignore" | command) blank
//! binding = chord ":" command blank
//! chord   = key space {"+" space key space}
//! key     = name | "0" | digit-but-0 {digit}
//! scope   = name space {name space}
//! name    = (letter | "_") {letter | digit | "_"}
//! command = space, then the text up to "#" or the end of the line, trimmed
//! blank   = {white space | "#" up to the end of the line}
//! space   = {white space}
//! ```
//!
//! A position is an index into the text. Every function here reads the text
//! from a position onward and says what stands there and where it ends.

use crate::model::{BindingView, Chord, ConfigView, GroupView, Shell};
use vstd::prelude::*;

verus! {

/// Why a text is no configuration.
#[derive(Debug, Copy, Clone, PartialEq, Eq, Structural)]
pub enum SyntaxErrorKind {
    /// The first element is not the `.shell` directive.
    MissingShell,
    /// The `.shell` directive names none of `cmd`, `powershell`, `pwsh`.
    UnknownShell,
    /// A chord needs a key name or a number here.
    ExpectedKey,
    /// A chord is followed by neither `:` nor `[`.
    ExpectedDelimiter,
    /// A group's entry needs a process name here.
    ExpectedProcessName,
    /// A process name is not followed by `:`.
    ExpectedColon,
    /// A group closes with no entry in it.
    EmptyGroup,
    /// The text ends inside a group.
    UnterminatedGroup,
    /// A group stands after a plain binding.
    MisplacedGroup,
    /// The text ends with no plain binding in it.
    MissingBinding,
}

impl SyntaxErrorKind {
    /// The fault in words.
    pub open spec fn reason_text(self) -> Seq<char> {
        match self {
            SyntaxErrorKind::MissingShell => "expected the .shell directive"@,
            SyntaxErrorKind::UnknownShell => "expected one of cmd, powershell, pwsh"@,
            SyntaxErrorKind::ExpectedKey => "expected a key name or a number"@,
            SyntaxErrorKind::ExpectedDelimiter => "expected ':' or '[' after the keys"@,
            SyntaxErrorKind::ExpectedProcessName => "expected a process name"@,
            SyntaxErrorKind::ExpectedColon => "expected ':' after the process name"@,
            SyntaxErrorKind::EmptyGroup => "expected an entry before ']'"@,
            SyntaxErrorKind::UnterminatedGroup => "expected ']' before the end"@,
            SyntaxErrorKind::MisplacedGroup => "expected no group after a plain binding"@,
            SyntaxErrorKind::MissingBinding => "expected at least one plain binding"@,
        }
    }

    /// The fault in words, for a message.
    pub fn reason(&self) -> (r: &'static str)
        ensures
            r@ == self.reason_text(),
    {
        match self {
            SyntaxErrorKind::MissingShell => "expected the .shell directive",
            SyntaxErrorKind::UnknownShell => "expected one of cmd, powershell, pwsh",
            SyntaxErrorKind::ExpectedKey => "expected a key name or a number",
            SyntaxErrorKind::ExpectedDelimiter => "expected ':' or '[' after the keys",
            SyntaxErrorKind::ExpectedProcessName => "expected a process name",
            SyntaxErrorKind::ExpectedColon => "expected ':' after the process name",
            SyntaxErrorKind::EmptyGroup => "expected an entry before ']'",
            SyntaxErrorKind::UnterminatedGroup => "expected ']' before the end",
            SyntaxErrorKind::MisplacedGroup => "expected no group after a plain binding",
            SyntaxErrorKind::MissingBinding => "expected at least one plain binding",
        }
    }
}

/// What stands at a position: a value and the position after it, or a fault
/// and the position of the offending text.
pub enum Parsed<T> {
    Done { value: T, next: int },
    Failed { at: int, kind: SyntaxErrorKind },
}

/// The kinds of character that the grammar tells apart.
#[derive(Debug, Copy, Clone, PartialEq, Eq, Structural)]
pub enum CharClass {
    /// White space, line breaks included.
    Space,
    /// A letter, a digit or an underscore.
    Name,
    /// A decimal digit.
    Digit,
    /// Anything that can stand in a command: all but `#` and line breaks.
    Command,
}

/// White space: the characters with Unicode's White_Space property.
pub open spec fn is_space(c: char) -> bool {
    let n = c as u32;
    ||| 0x09 <= n <= 0x0D
    ||| n == 0x20
    ||| n == 0x85
    ||| n == 0xA0
    ||| n == 0x1680
    ||| 0x2000 <= n <= 0x200A
    ||| n == 0x2028
    ||| n == 0x2029
    ||| n == 0x202F
    ||| n == 0x205F
    ||| n == 0x3000
}

/// A character that ends a line.
pub open spec fn is_line_break(c: char) -> bool {
    let n = c as u32;
    ||| 0x0A <= n <= 0x0D
    ||| n == 0x85
    ||| n == 0x2028
    ||| n == 0x2029
}

/// A decimal digit.
pub open spec fn is_digit(c: char) -> bool {
    '0' <= c <= '9'
}

/// A character that can begin a name: an ASCII letter or an underscore.
pub open spec fn is_name_start(c: char) -> bool {
    ||| 'a' <= c <= 'z'
    ||| 'A' <= c <= 'Z'
    ||| c == '_'
}

impl CharClass {
    /// Whether `c` belongs to the class.
    pub open spec fn has(self, c: char) -> bool {
        match self {
            CharClass::Space => is_space(c),
            CharClass::Name => is_name_start(c) || is_digit(c),
            CharClass::Digit => is_digit(c),
            CharClass::Command => c != '#' && !is_line_break(c),
        }
    }
}

/// How many characters from `p` on belong to `class`, up to the first that
/// does not.
pub open spec fn run(s: Seq<char>, p: int, class: CharClass) -> nat
    decreases s.len() - p,
{
    if 0 <= p < s.len() && class.has(s[p]) {
        1 + run(s, p + 1, class)
    } else {
        0
    }
}

/// The position after the run of `class` that starts at `p`.
pub open spec fn after(s: Seq<char>, p: int, class: CharClass) -> int {
    p + run(s, p, class)
}

/// How many characters from `p` on are white space or comment. A comment
/// runs from `#` through the end of its line.
pub open spec fn blank_run(s: Seq<char>, p: int, in_comment: bool) -> nat
    decreases s.len() - p,
{
    if 0 <= p < s.len() {
        if in_comment {
            1 + blank_run(s, p + 1, !is_line_break(s[p]))
        } else if is_space(s[p]) {
            1 + blank_run(s, p + 1, false)
        } else if s[p] == '#' {
            1 + blank_run(s, p + 1, true)
        } else {
            0
        }
    } else {
        0
    }
}

/// The position of the next element at or after `p`.
pub open spec fn after_blank(s: Seq<char>, p: int) -> int {
    p + blank_run(s, p, false)
}

/// The length of the name at `p`, 0 where none starts there.
pub open spec fn word_len(s: Seq<char>, p: int) -> nat {
    if 0 <= p < s.len() && is_name_start(s[p]) {
        1 + run(s, p + 1, CharClass::Name)
    } else {
        0
    }
}

/// The length of the key at `p`: a name, or a number without leading zero.
/// It is 0 where no key starts.
pub open spec fn key_len(s: Seq<char>, p: int) -> nat {
    if 0 <= p < s.len() && s[p] == '0' {
        1
    } else if 0 <= p < s.len() && is_digit(s[p]) {
        1 + run(s, p + 1, CharClass::Digit)
    } else {
        word_len(s, p)
    }
}

/// Whether the directive `name` stands at `p`: a dot and then exactly that
/// name.
pub open spec fn directive_at(s: Seq<char>, p: int, name: Seq<char>) -> bool {
    &&& 0 <= p < s.len()
    &&& s[p] == '.'
    &&& word_len(s, p + 1) > 0
    &&& s.subrange(p + 1, p + 1 + word_len(s, p + 1)) == name
}

/// The keys of the chord whose next key starts at `p`, after those in `acc`.
/// Keys are separated by `+`, with any white space around it.
pub open spec fn chord_from(s: Seq<char>, p: int, acc: Chord) -> Parsed<Chord>
    decreases s.len() - p,
{
    let n = key_len(s, p);
    if n == 0 {
        Parsed::Failed { at: p, kind: SyntaxErrorKind::ExpectedKey }
    } else {
        let keys = acc.push(s.subrange(p, p + n));
        let q = after(s, p + n, CharClass::Space);
        if q < s.len() && s[q] == '+' {
            proof {
                lemma_run_within(s, p + n, CharClass::Space);
                lemma_run_within(s, q + 1, CharClass::Space);
                lemma_key_within(s, p);
            }
            chord_from(s, after(s, q + 1, CharClass::Space), keys)
        } else {
            Parsed::Done { value: keys, next: q }
        }
    }
}

/// The chord that starts at `p`.
pub open spec fn chord_at(s: Seq<char>, p: int) -> Parsed<Chord> {
    chord_from(s, p, Seq::empty())
}

/// Where the text between `start` and `stop` ends once the white space at
/// its end is dropped.
pub open spec fn trimmed_end(s: Seq<char>, start: int, stop: int) -> int
    decreases stop - start,
{
    if 0 <= start < stop <= s.len() && is_space(s[stop - 1]) {
        trimmed_end(s, start, stop - 1)
    } else {
        stop
    }
}

/// The command after `p`: the text from the first character that is no white
/// space up to a `#`, a line break or the end, without the white space at its
/// end. The position is that of the `#`, the line break or the end.
pub open spec fn command_at(s: Seq<char>, p: int) -> (Seq<char>, int) {
    let start = after(s, p, CharClass::Space);
    let stop = after(s, start, CharClass::Command);
    (s.subrange(start, trimmed_end(s, start, stop)), stop)
}

/// The reserved command that stands for no action.
pub open spec fn ignore_word() -> Seq<char> {
    "Ignore"@
}

/// The scope that stands for the fallback entry of a group.
pub open spec fn default_word() -> Seq<char> {
    "Default"@
}

/// The command of a group's entry after `p`: the word `Ignore` alone is the
/// reserved command and ends where the word ends; anything else is a command
/// as in a plain binding.
pub open spec fn member_command_at(s: Seq<char>, p: int) -> (Seq<char>, int) {
    let start = after(s, p, CharClass::Space);
    let n = word_len(s, start);
    if n > 0 && s.subrange(start, start + n) == ignore_word() {
        (ignore_word(), start + n)
    } else {
        command_at(s, p)
    }
}

/// The rest of a process name after the words in `acc`, which end at `p`:
/// further names, each joined to the last by one space.
pub open spec fn scope_from(s: Seq<char>, p: int, acc: Seq<char>) -> (Seq<char>, int)
    decreases s.len() - p,
{
    let q = after(s, p, CharClass::Space);
    let n = word_len(s, q);
    if n == 0 {
        (acc, q)
    } else {
        proof {
            lemma_run_within(s, p, CharClass::Space);
            lemma_word_within(s, q);
        }
        scope_from(s, q + n, acc + seq![' '] + s.subrange(q, q + n))
    }
}

/// The process name at `p`: one or more names.
pub open spec fn scope_at(s: Seq<char>, p: int) -> Parsed<Seq<char>> {
    let n = word_len(s, p);
    if n == 0 {
        Parsed::Failed { at: p, kind: SyntaxErrorKind::ExpectedProcessName }
    } else {
        let (name, next) = scope_from(s, p + n, s.subrange(p, p + n));
        Parsed::Done { value: name, next }
    }
}

/// The entries of a group from `p` on, after those in `acc`, through the
/// closing bracket. Each entry is a process name, `:` and a command; white
/// space and comments may stand between entries.
pub open spec fn members_from(s: Seq<char>, p: int, keys: Chord, acc: Seq<BindingView>) -> Parsed<
    Seq<BindingView>,
>
    decreases s.len() - p,
{
    if !(0 <= p < s.len()) {
        Parsed::Failed { at: p, kind: SyntaxErrorKind::UnterminatedGroup }
    } else if s[p] == ']' {
        if acc.len() == 0 {
            Parsed::Failed { at: p, kind: SyntaxErrorKind::EmptyGroup }
        } else {
            Parsed::Done { value: acc, next: p + 1 }
        }
    } else {
        match scope_at(s, p) {
            Parsed::Failed { at, kind } => Parsed::Failed { at, kind },
            Parsed::Done { value: name, next: q } => {
                if q < s.len() && s[q] == ':' {
                    let (command, stop) = member_command_at(s, q + 1);
                    let member = BindingView { keys, command, process_name: Some(name) };
                    proof {
                        lemma_scope_within(s, p);
                        lemma_member_command_within(s, q + 1);
                        lemma_blank_within(s, stop, false);
                    }
                    members_from(s, after_blank(s, stop), keys, acc.push(member))
                } else {
                    Parsed::Failed { at: q, kind: SyntaxErrorKind::ExpectedColon }
                }
            },
        }
    }
}

/// Groups and plain bindings, in the order written.
pub struct Entries {
    pub groups: Seq<GroupView>,
    pub bindings: Seq<BindingView>,
}

/// The groups and plain bindings from `p` on, after those in `acc`, through
/// the end of the text. Groups come first; at least one plain binding
/// follows them.
pub open spec fn entries_from(s: Seq<char>, p: int, acc: Entries) -> Parsed<Entries>
    decreases s.len() - p,
{
    if !(0 <= p < s.len()) {
        if acc.bindings.len() == 0 {
            Parsed::Failed { at: p, kind: SyntaxErrorKind::MissingBinding }
        } else {
            Parsed::Done { value: acc, next: p }
        }
    } else {
        match chord_at(s, p) {
            Parsed::Failed { at, kind } => Parsed::Failed { at, kind },
            Parsed::Done { value: keys, next: q } => {
                if q < s.len() && s[q] == ':' {
                    let (command, stop) = command_at(s, q + 1);
                    let binding = BindingView { keys, command, process_name: None };
                    proof {
                        lemma_chord_within(s, p, Seq::empty());
                        lemma_command_within(s, q + 1);
                        lemma_blank_within(s, stop, false);
                    }
                    entries_from(
                        s,
                        after_blank(s, stop),
                        Entries { groups: acc.groups, bindings: acc.bindings.push(binding) },
                    )
                } else if q < s.len() && s[q] == '[' {
                    if acc.bindings.len() > 0 {
                        Parsed::Failed { at: p, kind: SyntaxErrorKind::MisplacedGroup }
                    } else {
                        proof {
                            lemma_chord_within(s, p, Seq::empty());
                            lemma_blank_within(s, q + 1, false);
                        }
                        match members_from(s, after_blank(s, q + 1), keys, Seq::empty()) {
                            Parsed::Failed { at, kind } => Parsed::Failed { at, kind },
                            Parsed::Done { value: members, next: stop } => {
                                proof {
                                    lemma_members_within(s, after_blank(s, q + 1), keys, Seq::empty());
                                    lemma_blank_within(s, stop, false);
                                }
                                entries_from(
                                    s,
                                    after_blank(s, stop),
                                    Entries {
                                        groups: acc.groups.push(GroupView { keys, members }),
                                        bindings: acc.bindings,
                                    },
                                )
                            },
                        }
                    }
                } else {
                    Parsed::Failed { at: q, kind: SyntaxErrorKind::ExpectedDelimiter }
                }
            },
        }
    }
}

/// The optional `.pause` directive at `p`: its chord, and the position of the
/// next element.
pub open spec fn pause_at(s: Seq<char>, p: int) -> Parsed<Option<Chord>> {
    if directive_at(s, p, "pause"@) {
        match chord_at(s, after(s, p + 1 + word_len(s, p + 1), CharClass::Space)) {
            Parsed::Failed { at, kind } => Parsed::Failed { at, kind },
            Parsed::Done { value, next } => Parsed::Done {
                value: Some(value),
                next: after_blank(s, next),
            },
        }
    } else {
        Parsed::Done { value: None, next: p }
    }
}

/// The optional `.pause_hook` directive at `p`: its command, and the position
/// of the next element.
pub open spec fn pause_hook_at(s: Seq<char>, p: int) -> (Option<Seq<char>>, int) {
    if directive_at(s, p, "pause_hook"@) {
        let (command, stop) = command_at(s, p + 1 + word_len(s, p + 1));
        (Some(command), after_blank(s, stop))
    } else {
        (None, p)
    }
}

/// The `.shell` directive at `p`: the shell it names, and the position of
/// the next element.
pub open spec fn shell_at(s: Seq<char>, p: int) -> Parsed<Shell> {
    if directive_at(s, p, "shell"@) {
        let start = after(s, p + 1 + word_len(s, p + 1), CharClass::Space);
        let stop = start + word_len(s, start);
        match Shell::of_name(s.subrange(start, stop)) {
            Some(shell) => Parsed::Done { value: shell, next: after_blank(s, stop) },
            None => Parsed::Failed { at: start, kind: SyntaxErrorKind::UnknownShell },
        }
    } else {
        Parsed::Failed { at: p, kind: SyntaxErrorKind::MissingShell }
    }
}

/// The configuration that a text holds. In this order: the `.shell`
/// directive, an optional `.pause` directive, an optional `.pause_hook`
/// directive, any number of groups, one or more plain bindings. White space
/// and comments may stand before, between and after them.
pub open spec fn config_of(s: Seq<char>) -> Parsed<ConfigView> {
    match shell_at(s, after_blank(s, 0)) {
        Parsed::Failed { at, kind } => Parsed::Failed { at, kind },
        Parsed::Done { value: shell, next: p } => match pause_at(s, p) {
            Parsed::Failed { at, kind } => Parsed::Failed { at, kind },
            Parsed::Done { value: pause_binding, next: q } => {
                let (pause_hook, r) = pause_hook_at(s, q);
                match entries_from(s, r, Entries { groups: Seq::empty(), bindings: Seq::empty() }) {
                    Parsed::Failed { at, kind } => Parsed::Failed { at, kind },
                    Parsed::Done { value: entries, next } => Parsed::Done {
                        value: ConfigView {
                            shell,
                            app_bindings: entries.groups,
                            bindings: entries.bindings,
                            pause_binding,
                            pause_hook,
                        },
                        next,
                    },
                }
            },
        },
    }
}

/// A run ends within the text.
pub proof fn lemma_run_within(s: Seq<char>, p: int, class: CharClass)
    requires
        0 <= p <= s.len(),
    ensures
        p <= after(s, p, class) <= s.len(),
        after(s, p, class) < s.len() ==> !class.has(s[after(s, p, class)]),
    decreases s.len() - p,
{
    if p < s.len() && class.has(s[p]) {
        lemma_run_within(s, p + 1, class);
    }
}

/// White space and comments end within the text, before an element.
pub proof fn lemma_blank_within(s: Seq<char>, p: int, in_comment: bool)
    requires
        0 <= p <= s.len(),
    ensures
        p + blank_run(s, p, in_comment) <= s.len(),
    decreases s.len() - p,
{
    if p < s.len() {
        if in_comment {
            lemma_blank_within(s, p + 1, !is_line_break(s[p]));
        } else if is_space(s[p]) {
            lemma_blank_within(s, p + 1, false);
        } else if s[p] == '#' {
            lemma_blank_within(s, p + 1, true);
        }
    }
}

/// A name ends within the text.
pub proof fn lemma_word_within(s: Seq<char>, p: int)
    requires
        0 <= p <= s.len(),
    ensures
        p + word_len(s, p) <= s.len(),
{
    if p < s.len() {
        lemma_run_within(s, p + 1, CharClass::Name);
    }
}

/// A key ends within the text.
pub proof fn lemma_key_within(s: Seq<char>, p: int)
    requires
        0 <= p <= s.len(),
    ensures
        p + key_len(s, p) <= s.len(),
{
    if p < s.len() {
        lemma_run_within(s, p + 1, CharClass::Name);
        lemma_run_within(s, p + 1, CharClass::Digit);
    }
}

/// A chord is not empty and ends within the text, after where it began.
pub proof fn lemma_chord_within(s: Seq<char>, p: int, acc: Chord)
    requires
        0 <= p <= s.len(),
    ensures
        chord_from(s, p, acc) matches Parsed::Done { value, next } ==> p < next <= s.len()
            && value.len() > acc.len(),
        chord_from(s, p, acc) matches Parsed::Failed { at, kind } ==> p <= at <= s.len(),
    decreases s.len() - p,
{
    let n = key_len(s, p);
    if n > 0 {
        lemma_key_within(s, p);
        lemma_run_within(s, p + n, CharClass::Space);
        let q = after(s, p + n, CharClass::Space);
        if q < s.len() && s[q] == '+' {
            lemma_run_within(s, q + 1, CharClass::Space);
            lemma_chord_within(s, after(s, q + 1, CharClass::Space), acc.push(s.subrange(p, p + n)));
        }
    }
}

/// Trimming stays between the two ends.
pub proof fn lemma_trimmed_within(s: Seq<char>, start: int, stop: int)
    requires
        0 <= start <= stop <= s.len(),
    ensures
        start <= trimmed_end(s, start, stop) <= stop,
    decreases stop - start,
{
    if start < stop && is_space(s[stop - 1]) {
        lemma_trimmed_within(s, start, stop - 1);
    }
}

/// A command ends within the text.
pub proof fn lemma_command_within(s: Seq<char>, p: int)
    requires
        0 <= p <= s.len(),
    ensures
        p <= command_at(s, p).1 <= s.len(),
{
    lemma_run_within(s, p, CharClass::Space);
    lemma_run_within(s, after(s, p, CharClass::Space), CharClass::Command);
}

/// The command of a group's entry ends within the text.
pub proof fn lemma_member_command_within(s: Seq<char>, p: int)
    requires
        0 <= p <= s.len(),
    ensures
        p <= member_command_at(s, p).1 <= s.len(),
{
    lemma_command_within(s, p);
    lemma_run_within(s, p, CharClass::Space);
    lemma_word_within(s, after(s, p, CharClass::Space));
}

/// The rest of a process name ends within the text.
pub proof fn lemma_scope_from_within(s: Seq<char>, p: int, acc: Seq<char>)
    requires
        0 <= p <= s.len(),
    ensures
        p <= scope_from(s, p, acc).1 <= s.len(),
    decreases s.len() - p,
{
    lemma_run_within(s, p, CharClass::Space);
    let q = after(s, p, CharClass::Space);
    let n = word_len(s, q);
    if n > 0 {
        lemma_word_within(s, q);
        lemma_scope_from_within(s, q + n, acc + seq![' '] + s.subrange(q, q + n));
    }
}

/// A process name ends within the text, after where it began.
pub proof fn lemma_scope_within(s: Seq<char>, p: int)
    requires
        0 <= p <= s.len(),
    ensures
        scope_at(s, p) matches Parsed::Done { value, next } ==> p < next <= s.len(),
{
    let n = word_len(s, p);
    if n > 0 {
        lemma_word_within(s, p);
        lemma_scope_from_within(s, p + n, s.subrange(p, p + n));
    }
}

/// A group ends within the text, after where its entries began.
pub proof fn lemma_members_within(s: Seq<char>, p: int, keys: Chord, acc: Seq<BindingView>)
    requires
        0 <= p <= s.len(),
    ensures
        members_from(s, p, keys, acc) matches Parsed::Done { value, next } ==> p < next <= s.len(),
    decreases s.len() - p,
{
    if p < s.len() && s[p] != ']' {
        lemma_scope_within(s, p);
        match scope_at(s, p) {
            Parsed::Failed { .. } => {},
            Parsed::Done { value: name, next: q } => {
                if q < s.len() && s[q] == ':' {
                    let (command, stop) = member_command_at(s, q + 1);
                    lemma_member_command_within(s, q + 1);
                    lemma_blank_within(s, stop, false);
                    lemma_members_within(
                        s,
                        after_blank(s, stop),
                        keys,
                        acc.push(BindingView { keys, command, process_name: Some(name) }),
                    );
                }
            },
        }
    }
}

/// Every entry that a group's text yields carries the group's chord and a
/// process name, and there is at least one.
pub proof fn lemma_members_formed(s: Seq<char>, p: int, keys: Chord, acc: Seq<BindingView>)
    requires
        0 <= p <= s.len(),
        forall|i: int| 0 <= i < acc.len() ==> (#[trigger] acc[i]).is_member_of(keys),
    ensures
        members_from(s, p, keys, acc) matches Parsed::Done { value, next } ==> value.len() >= 1
            && forall|i: int| 0 <= i < value.len() ==> (#[trigger] value[i]).is_member_of(keys),
    decreases s.len() - p,
{
    if p < s.len() && s[p] != ']' {
        lemma_scope_within(s, p);
        match scope_at(s, p) {
            Parsed::Failed { .. } => {},
            Parsed::Done { value: name, next: q } => {
                if q < s.len() && s[q] == ':' {
                    let (command, stop) = member_command_at(s, q + 1);
                    lemma_member_command_within(s, q + 1);
                    lemma_blank_within(s, stop, false);
                    lemma_members_formed(
                        s,
                        after_blank(s, stop),
                        keys,
                        acc.push(BindingView { keys, command, process_name: Some(name) }),
                    );
                }
            },
        }
    }
}

/// What the entries of a text add to well-formed groups and bindings is
/// well formed, and at least one plain binding is among them.
pub proof fn lemma_entries_formed(s: Seq<char>, p: int, acc: Entries)
    requires
        0 <= p <= s.len(),
        forall|i: int| 0 <= i < acc.groups.len() ==> (#[trigger] acc.groups[i]).well_formed(),
        forall|i: int| 0 <= i < acc.bindings.len() ==> (#[trigger] acc.bindings[i]).is_plain(),
    ensures
        entries_from(s, p, acc) matches Parsed::Done { value, next } ==> {
            &&& value.bindings.len() >= 1
            &&& forall|i: int|
                0 <= i < value.groups.len() ==> (#[trigger] value.groups[i]).well_formed()
            &&& forall|i: int|
                0 <= i < value.bindings.len() ==> (#[trigger] value.bindings[i]).is_plain()
        },
    decreases s.len() - p,
{
    if p < s.len() {
        lemma_chord_within(s, p, Seq::empty());
        match chord_at(s, p) {
            Parsed::Failed { .. } => {},
            Parsed::Done { value: keys, next: q } => {
                if q < s.len() && s[q] == ':' {
                    let (command, stop) = command_at(s, q + 1);
                    lemma_command_within(s, q + 1);
                    lemma_blank_within(s, stop, false);
                    let binding = BindingView { keys, command, process_name: None };
                    assert(binding.is_plain());
                    lemma_entries_formed(
                        s,
                        after_blank(s, stop),
                        Entries { groups: acc.groups, bindings: acc.bindings.push(binding) },
                    );
                } else if q < s.len() && s[q] == '[' && acc.bindings.len() == 0 {
                    lemma_blank_within(s, q + 1, false);
                    let inside = after_blank(s, q + 1);
                    lemma_members_within(s, inside, keys, Seq::empty());
                    lemma_members_formed(s, inside, keys, Seq::empty());
                    match members_from(s, inside, keys, Seq::empty()) {
                        Parsed::Failed { .. } => {},
                        Parsed::Done { value: members, next: stop } => {
                            lemma_blank_within(s, stop, false);
                            let group = GroupView { keys, members };
                            assert(group.well_formed());
                            lemma_entries_formed(
                                s,
                                after_blank(s, stop),
                                Entries { groups: acc.groups.push(group), bindings: acc.bindings },
                            );
                        },
                    }
                }
            },
        }
    }
}

/// Every configuration that a text holds is well formed: each chord has a
/// key, plain bindings have no scope, the entries of a group carry its chord
/// and a scope, and there is a plain binding.
pub proof fn law_parsed_is_well_formed(s: Seq<char>)
    ensures
        config_of(s) matches Parsed::Done { value, next } ==> value.well_formed(),
{
    lemma_blank_within(s, 0, false);
    let start = after_blank(s, 0);
    match shell_at(s, start) {
        Parsed::Failed { .. } => {},
        Parsed::Done { value: shell, next: p } => {
            lemma_word_within(s, start + 1);
            let name = after(s, start + 1 + word_len(s, start + 1), CharClass::Space);
            lemma_run_within(s, start + 1 + word_len(s, start + 1), CharClass::Space);
            lemma_word_within(s, name);
            lemma_blank_within(s, name + word_len(s, name), false);
            match pause_at(s, p) {
                Parsed::Failed { .. } => {},
                Parsed::Done { value: pause_binding, next: q } => {
                    if directive_at(s, p, "pause"@) {
                        lemma_word_within(s, p + 1);
                        let at = after(s, p + 1 + word_len(s, p + 1), CharClass::Space);
                        lemma_run_within(s, p + 1 + word_len(s, p + 1), CharClass::Space);
                        lemma_chord_within(s, at, Seq::empty());
                        match chord_at(s, at) {
                            Parsed::Failed { .. } => {},
                            Parsed::Done { value, next } => {
                                lemma_blank_within(s, next, false);
                            },
                        }
                    }
                    if directive_at(s, q, "pause_hook"@) {
                        lemma_word_within(s, q + 1);
                        lemma_command_within(s, q + 1 + word_len(s, q + 1));
                        lemma_blank_within(s, command_at(s, q + 1 + word_len(s, q + 1)).1, false);
                    }
                    let (pause_hook, r) = pause_hook_at(s, q);
                    lemma_entries_formed(
                        s,
                        r,
                        Entries { groups: Seq::empty(), bindings: Seq::empty() },
                    );
                },
            }
        },
    }
}

/// Every character of a run belongs to its class.
pub proof fn lemma_run_holds(s: Seq<char>, p: int, class: CharClass)
    requires
        0 <= p <= s.len(),
    ensures
        forall|i: int| p <= i < after(s, p, class) ==> class.has(#[trigger] s[i]),
    decreases s.len() - p,
{
    if p < s.len() && class.has(s[p]) {
        lemma_run_within(s, p + 1, class);
        lemma_run_holds(s, p + 1, class);
    }
}

/// Trimming ends after a character that is no white space, or at the start.
pub proof fn lemma_trimmed_end(s: Seq<char>, start: int, stop: int)
    requires
        0 <= start <= stop <= s.len(),
    ensures
        start < trimmed_end(s, start, stop) ==> !is_space(s[trimmed_end(s, start, stop) - 1]),
    decreases stop - start,
{
    if start < stop && is_space(s[stop - 1]) {
        lemma_trimmed_end(s, start, stop - 1);
    }
}

/// A command is one line's text, trimmed: it holds no line break and no
/// `#`, and neither begins nor ends with white space.
pub proof fn law_command_is_trimmed(s: Seq<char>, p: int)
    requires
        0 <= p <= s.len(),
    ensures
        forall|i: int|
            0 <= i < command_at(s, p).0.len() ==> !is_line_break(#[trigger] command_at(s, p).0[i])
                && command_at(s, p).0[i] != '#',
        command_at(s, p).0.len() > 0 ==> !is_space(command_at(s, p).0.first()) && !is_space(
            command_at(s, p).0.last(),
        ),
{
    let start = after(s, p, CharClass::Space);
    lemma_run_within(s, p, CharClass::Space);
    let stop = after(s, start, CharClass::Command);
    lemma_run_within(s, start, CharClass::Command);
    lemma_run_holds(s, start, CharClass::Command);
    lemma_trimmed_within(s, start, stop);
    lemma_trimmed_end(s, start, stop);
    let end = trimmed_end(s, start, stop);
    let text = command_at(s, p).0;
    assert forall|i: int| 0 <= i < text.len() implies !is_line_break(#[trigger] text[i]) && text[i]
        != '#' by {
        assert(text[i] == s[start + i]);
        assert(CharClass::Command.has(s[start + i]));
    }
    if text.len() > 0 {
        assert(text.first() == s[start]);
        assert(text.last() == s[end - 1]);
    }
}

/// A key is a name or a number: it is not empty, and each of its characters
/// is a letter, a digit or an underscore.
pub proof fn law_key_is_a_word(s: Seq<char>, p: int)
    requires
        0 <= p <= s.len(),
        key_len(s, p) > 0,
    ensures
        p + key_len(s, p) <= s.len(),
        forall|i: int| p <= i < p + key_len(s, p) ==> CharClass::Name.has(#[trigger] s[i]),
{
    lemma_key_within(s, p);
    lemma_run_holds(s, p + 1, CharClass::Name);
    lemma_run_holds(s, p + 1, CharClass::Digit);
}

/// A fault among a group's entries lies within the text.
pub proof fn lemma_members_fault_within(s: Seq<char>, p: int, keys: Chord, acc: Seq<BindingView>)
    requires
        0 <= p <= s.len(),
    ensures
        members_from(s, p, keys, acc) matches Parsed::Failed { at, kind } ==> p <= at <= s.len(),
    decreases s.len() - p,
{
    if p < s.len() && s[p] != ']' {
        lemma_scope_within(s, p);
        match scope_at(s, p) {
            Parsed::Failed { .. } => {},
            Parsed::Done { value: name, next: q } => {
                if q < s.len() && s[q] == ':' {
                    let (command, stop) = member_command_at(s, q + 1);
                    lemma_member_command_within(s, q + 1);
                    lemma_blank_within(s, stop, false);
                    lemma_members_fault_within(
                        s,
                        after_blank(s, stop),
                        keys,
                        acc.push(BindingView { keys, command, process_name: Some(name) }),
                    );
                }
            },
        }
    }
}

/// A fault among the groups and bindings lies within the text.
pub proof fn lemma_entries_fault_within(s: Seq<char>, p: int, acc: Entries)
    requires
        0 <= p <= s.len(),
    ensures
        entries_from(s, p, acc) matches Parsed::Failed { at, kind } ==> p <= at <= s.len(),
    decreases s.len() - p,
{
    if p < s.len() {
        lemma_chord_within(s, p, Seq::empty());
        match chord_at(s, p) {
            Parsed::Failed { .. } => {},
            Parsed::Done { value: keys, next: q } => {
                if q < s.len() && s[q] == ':' {
                    let (command, stop) = command_at(s, q + 1);
                    lemma_command_within(s, q + 1);
                    lemma_blank_within(s, stop, false);
                    lemma_entries_fault_within(
                        s,
                        after_blank(s, stop),
                        Entries {
                            groups: acc.groups,
                            bindings: acc.bindings.push(
                                BindingView { keys, command, process_name: None },
                            ),
                        },
                    );
                } else if q < s.len() && s[q] == '[' && acc.bindings.len() == 0 {
                    lemma_blank_within(s, q + 1, false);
                    let inside = after_blank(s, q + 1);
                    lemma_members_within(s, inside, keys, Seq::empty());
                    lemma_members_fault_within(s, inside, keys, Seq::empty());
                    match members_from(s, inside, keys, Seq::empty()) {
                        Parsed::Failed { .. } => {},
                        Parsed::Done { value: members, next: stop } => {
                            lemma_blank_within(s, stop, false);
                            lemma_entries_fault_within(
                                s,
                                after_blank(s, stop),
                                Entries {
                                    groups: acc.groups.push(GroupView { keys, members }),
                                    bindings: acc.bindings,
                                },
                            );
                        },
                    }
                }
            },
        }
    }
}

/// The position of a fault is a position of the text: that of a character,
/// or the end.
pub proof fn law_fault_is_within_text(s: Seq<char>)
    ensures
        config_of(s) matches Parsed::Failed { at, kind } ==> 0 <= at <= s.len(),
{
    lemma_blank_within(s, 0, false);
    let start = after_blank(s, 0);
    match shell_at(s, start) {
        Parsed::Failed { .. } => {
            if directive_at(s, start, "shell"@) {
                lemma_word_within(s, start + 1);
                lemma_run_within(s, start + 1 + word_len(s, start + 1), CharClass::Space);
            }
        },
        Parsed::Done { value: shell, next: p } => {
            lemma_word_within(s, start + 1);
            let name = after(s, start + 1 + word_len(s, start + 1), CharClass::Space);
            lemma_run_within(s, start + 1 + word_len(s, start + 1), CharClass::Space);
            lemma_word_within(s, name);
            lemma_blank_within(s, name + word_len(s, name), false);
            if directive_at(s, p, "pause"@) {
                lemma_word_within(s, p + 1);
                let at = after(s, p + 1 + word_len(s, p + 1), CharClass::Space);
                lemma_run_within(s, p + 1 + word_len(s, p + 1), CharClass::Space);
                lemma_chord_within(s, at, Seq::empty());
                match chord_at(s, at) {
                    Parsed::Failed { .. } => {},
                    Parsed::Done { value, next } => {
                        lemma_blank_within(s, next, false);
                    },
                }
            }
            match pause_at(s, p) {
                Parsed::Failed { .. } => {},
                Parsed::Done { value: pause_binding, next: q } => {
                    if directive_at(s, q, "pause_hook"@) {
                        lemma_word_within(s, q + 1);
                        lemma_command_within(s, q + 1 + word_len(s, q + 1));
                        lemma_blank_within(s, command_at(s, q + 1 + word_len(s, q + 1)).1, false);
                    }
                    let (pause_hook, r) = pause_hook_at(s, q);
                    lemma_entries_fault_within(
                        s,
                        r,
                        Entries { groups: Seq::empty(), bindings: Seq::empty() },
                    );
                },
            }
        },
    }
}

} // verus!
