//! The parser of the configuration file.

use crate::augment::{augmented, law_mirroring_keeps_form};
use crate::grammar::{
    after, after_blank, blank_run, chord_at, chord_from, command_at, config_of, directive_at,
    entries_from, is_digit, is_line_break, is_name_start, is_space, key_len,
    law_parsed_is_well_formed, member_command_at, members_from, pause_at, pause_hook_at, scope_at,
    scope_from, shell_at, trimmed_end, word_len, CharClass, Entries, Parsed, SyntaxErrorKind,
};
use crate::model::{
    bindings_view, chord_view, copy_keys, groups_view, keys_view, text_view, GroupView,
    HotkeyBinding, Shell, Whkdrc,
};
use vstd::prelude::*;
use vstd::string::*;

verus! {

/// Where and why a text is no configuration. The position counts characters
/// from the start of the text.
#[derive(Debug, Copy, Clone, PartialEq, Eq, Structural)]
pub struct SyntaxError {
    pub position: usize,
    pub kind: SyntaxErrorKind,
}

impl SyntaxError {
    /// Whether this is the fault `kind` at position `at`.
    pub open spec fn is_fault(self, at: int, kind: SyntaxErrorKind) -> bool {
        self.position == at && self.kind == kind
    }
}

/// Whether `c` is white space.
fn space(c: char) -> (r: bool)
    ensures
        r == is_space(c),
{
    let n: u32 = c as u32;
    (0x09 <= n && n <= 0x0D) || n == 0x20 || n == 0x85 || n == 0xA0 || n == 0x1680 || (0x2000 <= n
        && n <= 0x200A) || n == 0x2028 || n == 0x2029 || n == 0x202F || n == 0x205F || n == 0x3000
}

/// Whether `c` ends a line.
fn line_break(c: char) -> (r: bool)
    ensures
        r == is_line_break(c),
{
    let n: u32 = c as u32;
    (0x0A <= n && n <= 0x0D) || n == 0x85 || n == 0x2028 || n == 0x2029
}

/// Whether `c` is a decimal digit.
fn digit(c: char) -> (r: bool)
    ensures
        r == is_digit(c),
{
    '0' <= c && c <= '9'
}

/// Whether `c` can begin a name.
fn name_start(c: char) -> (r: bool)
    ensures
        r == is_name_start(c),
{
    ('a' <= c && c <= 'z') || ('A' <= c && c <= 'Z') || c == '_'
}

/// Whether `c` belongs to `class`.
fn in_class(class: CharClass, c: char) -> (r: bool)
    ensures
        r == class.has(c),
{
    match class {
        CharClass::Space => space(c),
        CharClass::Name => name_start(c) || digit(c),
        CharClass::Digit => digit(c),
        CharClass::Command => c != '#' && !line_break(c),
    }
}

/// The characters of a text, for access by position.
fn characters(text: &str) -> (r: Vec<char>)
    ensures
        r@ == text@,
{
    let mut out: Vec<char> = Vec::new();
    for c in it: text.chars()
        invariant
            out@ == it.seq().take(it.index() as int),
            it.seq() == text@,
    {
        out.push(c);
    }
    out
}

/// The text between two positions.
fn slice(text: &str, from: usize, to: usize) -> (r: String)
    requires
        from <= to <= text@.len(),
    ensures
        r@ == text@.subrange(from as int, to as int),
{
    String::from_str(text.substring_char(from, to))
}

/// Skips the run of `class` at `p`.
fn scan(chars: &Vec<char>, p: usize, class: CharClass) -> (q: usize)
    requires
        p <= chars.len(),
    ensures
        q == after(chars@, p as int, class),
        p <= q <= chars.len(),
{
    let mut i: usize = p;
    while i < chars.len() && in_class(class, chars[i])
        invariant
            p <= i <= chars.len(),
            after(chars@, i as int, class) == after(chars@, p as int, class),
        decreases chars.len() - i,
    {
        i += 1;
    }
    i
}

/// Skips white space and comments at `p`.
fn skip_blank(chars: &Vec<char>, p: usize) -> (q: usize)
    requires
        p <= chars.len(),
    ensures
        q == after_blank(chars@, p as int),
        p <= q <= chars.len(),
{
    let mut i: usize = p;
    let mut in_comment = false;
    while i < chars.len() && (in_comment || space(chars[i]) || chars[i] == '#')
        invariant
            p <= i <= chars.len(),
            i + blank_run(chars@, i as int, in_comment) == after_blank(chars@, p as int),
        decreases chars.len() - i,
    {
        if in_comment {
            in_comment = !line_break(chars[i]);
        } else {
            in_comment = chars[i] == '#';
        }
        i += 1;
    }
    i
}

/// The end of the name at `p`, or `p` where none starts.
fn word_end(chars: &Vec<char>, p: usize) -> (q: usize)
    requires
        p <= chars.len(),
    ensures
        q == p + word_len(chars@, p as int),
        p <= q <= chars.len(),
{
    if p < chars.len() && name_start(chars[p]) {
        scan(chars, p + 1, CharClass::Name)
    } else {
        p
    }
}

/// The end of the key at `p`, or `p` where none starts.
fn key_end(chars: &Vec<char>, p: usize) -> (q: usize)
    requires
        p <= chars.len(),
    ensures
        q == p + key_len(chars@, p as int),
        p <= q <= chars.len(),
{
    if p < chars.len() && chars[p] == '0' {
        p + 1
    } else if p < chars.len() && digit(chars[p]) {
        scan(chars, p + 1, CharClass::Digit)
    } else {
        word_end(chars, p)
    }
}

/// Whether the directive `name` stands at `p`.
fn at_directive(text: &str, chars: &Vec<char>, p: usize, name: &str) -> (r: bool)
    requires
        chars@ == text@,
        p <= chars.len(),
    ensures
        r == directive_at(chars@, p as int, name@),
{
    if p < chars.len() && chars[p] == '.' {
        let stop = word_end(chars, p + 1);
        stop > p + 1 && slice(text, p + 1, stop) == String::from_str(name)
    } else {
        false
    }
}

/// Reads the chord at `start`.
fn read_chord(text: &str, chars: &Vec<char>, start: usize) -> (r: Result<
    (Vec<String>, usize),
    SyntaxError,
>)
    requires
        chars@ == text@,
        start <= chars.len(),
    ensures
        match chord_at(chars@, start as int) {
            Parsed::Done { value, next } => r matches Ok((keys, q)) && keys_view(keys@) == value
                && q == next && start < q <= chars.len(),
            Parsed::Failed { at, kind } => r matches Err(e) && e.is_fault(at, kind),
        },
{
    let mut keys: Vec<String> = Vec::new();
    let mut p: usize = start;
    assert(keys_view(keys@) =~= Seq::empty());
    loop
        invariant
            chars@ == text@,
            start <= p <= chars.len(),
            chord_from(chars@, p as int, keys_view(keys@)) == chord_at(chars@, start as int),
        decreases chars.len() - p,
    {
        let stop = key_end(chars, p);
        if stop == p {
            return Err(SyntaxError { position: p, kind: SyntaxErrorKind::ExpectedKey });
        }
        let ghost before = keys_view(keys@);
        keys.push(slice(text, p, stop));
        assert(keys_view(keys@) =~= before.push(chars@.subrange(p as int, stop as int)));
        let q = scan(chars, stop, CharClass::Space);
        if q < chars.len() && chars[q] == '+' {
            p = scan(chars, q + 1, CharClass::Space);
        } else {
            return Ok((keys, q));
        }
    }
}

/// Reads the command after `p`.
fn read_command(text: &str, chars: &Vec<char>, p: usize) -> (r: (String, usize))
    requires
        chars@ == text@,
        p <= chars.len(),
    ensures
        r.0@ == command_at(chars@, p as int).0,
        r.1 == command_at(chars@, p as int).1,
        p <= r.1 <= chars.len(),
{
    let start = scan(chars, p, CharClass::Space);
    let stop = scan(chars, start, CharClass::Command);
    let mut end: usize = stop;
    while end > start && space(chars[end - 1])
        invariant
            start <= end <= stop <= chars.len(),
            trimmed_end(chars@, start as int, end as int) == trimmed_end(
                chars@,
                start as int,
                stop as int,
            ),
        decreases end - start,
    {
        end -= 1;
    }
    (slice(text, start, end), stop)
}

/// Reads the command of a group's entry after `p`.
fn read_member_command(text: &str, chars: &Vec<char>, p: usize) -> (r: (String, usize))
    requires
        chars@ == text@,
        p <= chars.len(),
    ensures
        r.0@ == member_command_at(chars@, p as int).0,
        r.1 == member_command_at(chars@, p as int).1,
        p <= r.1 <= chars.len(),
{
    let start = scan(chars, p, CharClass::Space);
    let stop = word_end(chars, start);
    if stop > start {
        let word = slice(text, start, stop);
        if word == String::from_str("Ignore") {
            return (word, stop);
        }
    }
    read_command(text, chars, p)
}

/// Reads the process name at `p`.
fn read_scope(text: &str, chars: &Vec<char>, p: usize) -> (r: Result<(String, usize), SyntaxError>)
    requires
        chars@ == text@,
        p <= chars.len(),
    ensures
        match scope_at(chars@, p as int) {
            Parsed::Done { value, next } => r matches Ok((name, q)) && name@ == value && q == next
                && p < q <= chars.len(),
            Parsed::Failed { at, kind } => r matches Err(e) && e.is_fault(at, kind),
        },
{
    let first = word_end(chars, p);
    if first == p {
        return Err(SyntaxError { position: p, kind: SyntaxErrorKind::ExpectedProcessName });
    }
    let mut name = slice(text, p, first);
    let mut at: usize = first;
    loop
        invariant
            chars@ == text@,
            p < first <= at <= chars.len(),
            first == p + word_len(chars@, p as int),
            scope_from(chars@, at as int, name@) == scope_from(
                chars@,
                first as int,
                chars@.subrange(p as int, first as int),
            ),
        decreases chars.len() - at,
    {
        let q = scan(chars, at, CharClass::Space);
        let stop = word_end(chars, q);
        if stop == q {
            return Ok((name, q));
        }
        proof {
            reveal_strlit(" ");
            assert(" "@ =~= seq![' ']);
        }
        name.append(" ");
        name.append(text.substring_char(q, stop));
        at = stop;
    }
}

/// Reads the entries of a group from `start` through the closing bracket.
fn read_members(text: &str, chars: &Vec<char>, start: usize, keys: &Vec<String>) -> (r: Result<
    (Vec<HotkeyBinding>, usize),
    SyntaxError,
>)
    requires
        chars@ == text@,
        start <= chars.len(),
    ensures
        match members_from(chars@, start as int, keys_view(keys@), Seq::empty()) {
            Parsed::Done { value, next } => r matches Ok((members, q)) && bindings_view(members@)
                == value && q == next && start < q <= chars.len(),
            Parsed::Failed { at, kind } => r matches Err(e) && e.is_fault(at, kind),
        },
{
    let mut members: Vec<HotkeyBinding> = Vec::new();
    let mut p: usize = start;
    assert(bindings_view(members@) =~= Seq::empty());
    loop
        invariant
            chars@ == text@,
            start <= p <= chars.len(),
            p == start ==> members@.len() == 0,
            members_from(chars@, p as int, keys_view(keys@), bindings_view(members@))
                == members_from(chars@, start as int, keys_view(keys@), Seq::empty()),
        decreases chars.len() - p,
    {
        if p >= chars.len() {
            return Err(SyntaxError { position: p, kind: SyntaxErrorKind::UnterminatedGroup });
        }
        if chars[p] == ']' {
            if members.len() == 0 {
                return Err(SyntaxError { position: p, kind: SyntaxErrorKind::EmptyGroup });
            }
            return Ok((members, p + 1));
        }
        let (name, q) = match read_scope(text, chars, p) {
            Ok(found) => found,
            Err(e) => {
                return Err(e);
            },
        };
        if !(q < chars.len() && chars[q] == ':') {
            return Err(SyntaxError { position: q, kind: SyntaxErrorKind::ExpectedColon });
        }
        let (command, stop) = read_member_command(text, chars, q + 1);
        let ghost before = bindings_view(members@);
        let member = HotkeyBinding { keys: copy_keys(keys), command, process_name: Some(name) };
        members.push(member);
        assert(bindings_view(members@) =~= before.push(member@));
        p = skip_blank(chars, stop);
    }
}

/// Reads the groups and plain bindings from `start` through the end.
fn read_entries(text: &str, chars: &Vec<char>, start: usize) -> (r: Result<
    (Vec<(Vec<String>, Vec<HotkeyBinding>)>, Vec<HotkeyBinding>),
    SyntaxError,
>)
    requires
        chars@ == text@,
        start <= chars.len(),
    ensures
        match entries_from(
            chars@,
            start as int,
            Entries { groups: Seq::empty(), bindings: Seq::empty() },
        ) {
            Parsed::Done { value, next } => r matches Ok((groups, bindings)) && groups_view(groups@)
                == value.groups && bindings_view(bindings@) == value.bindings,
            Parsed::Failed { at, kind } => r matches Err(e) && e.is_fault(at, kind),
        },
{
    let mut groups: Vec<(Vec<String>, Vec<HotkeyBinding>)> = Vec::new();
    let mut bindings: Vec<HotkeyBinding> = Vec::new();
    let mut p: usize = start;
    assert(groups_view(groups@) =~= Seq::empty());
    assert(bindings_view(bindings@) =~= Seq::empty());
    loop
        invariant
            chars@ == text@,
            start <= p <= chars.len(),
            entries_from(
                chars@,
                p as int,
                Entries { groups: groups_view(groups@), bindings: bindings_view(bindings@) },
            ) == entries_from(
                chars@,
                start as int,
                Entries { groups: Seq::empty(), bindings: Seq::empty() },
            ),
        decreases chars.len() - p,
    {
        if p >= chars.len() {
            if bindings.len() == 0 {
                return Err(SyntaxError { position: p, kind: SyntaxErrorKind::MissingBinding });
            }
            return Ok((groups, bindings));
        }
        let (keys, q) = match read_chord(text, chars, p) {
            Ok(found) => found,
            Err(e) => {
                return Err(e);
            },
        };
        if q < chars.len() && chars[q] == ':' {
            let (command, stop) = read_command(text, chars, q + 1);
            let ghost before = bindings_view(bindings@);
            let binding = HotkeyBinding { keys, command, process_name: None };
            bindings.push(binding);
            assert(bindings_view(bindings@) =~= before.push(binding@));
            p = skip_blank(chars, stop);
        } else if q < chars.len() && chars[q] == '[' {
            if bindings.len() > 0 {
                return Err(SyntaxError { position: p, kind: SyntaxErrorKind::MisplacedGroup });
            }
            let inside = skip_blank(chars, q + 1);
            let (members, stop) = match read_members(text, chars, inside, &keys) {
                Ok(found) => found,
                Err(e) => {
                    return Err(e);
                },
            };
            let ghost before = groups_view(groups@);
            let ghost group = GroupView { keys: keys_view(keys@), members: bindings_view(members@) };
            groups.push((keys, members));
            assert(groups_view(groups@) =~= before.push(group));
            p = skip_blank(chars, stop);
        } else {
            return Err(SyntaxError { position: q, kind: SyntaxErrorKind::ExpectedDelimiter });
        }
    }
}

/// Reads the `.shell` directive at `p`.
fn read_shell(text: &str, chars: &Vec<char>, p: usize) -> (r: Result<(Shell, usize), SyntaxError>)
    requires
        chars@ == text@,
        p <= chars.len(),
    ensures
        match shell_at(chars@, p as int) {
            Parsed::Done { value, next } => r matches Ok((shell, q)) && shell == value && q == next
                && q <= chars.len(),
            Parsed::Failed { at, kind } => r matches Err(e) && e.is_fault(at, kind),
        },
{
    if !at_directive(text, chars, p, "shell") {
        return Err(SyntaxError { position: p, kind: SyntaxErrorKind::MissingShell });
    }
    let start = scan(chars, word_end(chars, p + 1), CharClass::Space);
    let stop = word_end(chars, start);
    match Shell::from_name(text.substring_char(start, stop)) {
        Some(shell) => Ok((shell, skip_blank(chars, stop))),
        None => Err(SyntaxError { position: start, kind: SyntaxErrorKind::UnknownShell }),
    }
}

/// Reads the `.pause` directive at `p`, if one stands there.
fn read_pause(text: &str, chars: &Vec<char>, p: usize) -> (r: Result<
    (Option<Vec<String>>, usize),
    SyntaxError,
>)
    requires
        chars@ == text@,
        p <= chars.len(),
    ensures
        match pause_at(chars@, p as int) {
            Parsed::Done { value, next } => r matches Ok((keys, q)) && chord_view(keys) == value
                && q == next && q <= chars.len(),
            Parsed::Failed { at, kind } => r matches Err(e) && e.is_fault(at, kind),
        },
{
    if !at_directive(text, chars, p, "pause") {
        return Ok((None, p));
    }
    let start = scan(chars, word_end(chars, p + 1), CharClass::Space);
    match read_chord(text, chars, start) {
        Ok((keys, q)) => Ok((Some(keys), skip_blank(chars, q))),
        Err(e) => Err(e),
    }
}

/// Reads the `.pause_hook` directive at `p`, if one stands there.
fn read_pause_hook(text: &str, chars: &Vec<char>, p: usize) -> (r: (Option<String>, usize))
    requires
        chars@ == text@,
        p <= chars.len(),
    ensures
        text_view(r.0) == pause_hook_at(chars@, p as int).0,
        r.1 == pause_hook_at(chars@, p as int).1,
        r.1 <= chars.len(),
{
    if !at_directive(text, chars, p, "pause_hook") {
        return (None, p);
    }
    let (command, stop) = read_command(text, chars, word_end(chars, p + 1));
    (Some(command), skip_blank(chars, stop))
}

/// Whether `r` is what parsing owes for `text`: the configuration that the
/// grammar finds there, or its first fault.
pub open spec fn is_parse_of(r: Result<Whkdrc, SyntaxError>, text: Seq<char>) -> bool {
    match config_of(text) {
        Parsed::Done { value, next } => r matches Ok(config) && config@ == value,
        Parsed::Failed { at, kind } => r matches Err(e) && e.is_fault(at, kind),
    }
}

/// Parses a configuration text. The result is the configuration that the
/// grammar finds in the text, or the first fault with its position; nothing
/// is returned of a text that holds a fault.
pub fn parser(text: &str) -> (r: Result<Whkdrc, SyntaxError>)
    ensures
        is_parse_of(r, text@),
        r matches Ok(config) ==> config@.well_formed(),
{
    proof {
        law_parsed_is_well_formed(text@);
    }
    let chars = characters(text);
    let start = skip_blank(&chars, 0);
    let (shell, p) = match read_shell(text, &chars, start) {
        Ok(found) => found,
        Err(e) => {
            return Err(e);
        },
    };
    let (pause_binding, q) = match read_pause(text, &chars, p) {
        Ok(found) => found,
        Err(e) => {
            return Err(e);
        },
    };
    let (pause_hook, at) = read_pause_hook(text, &chars, q);
    match read_entries(text, &chars, at) {
        Ok((app_bindings, bindings)) => Ok(
            Whkdrc { shell, app_bindings, bindings, pause_binding, pause_hook },
        ),
        Err(e) => Err(e),
    }
}

/// Parsing is deterministic: whatever parsing owes for one text, twice, is
/// the same configuration or the same fault.
pub proof fn law_parsing_is_deterministic(
    text: Seq<char>,
    first: Result<Whkdrc, SyntaxError>,
    second: Result<Whkdrc, SyntaxError>,
)
    requires
        is_parse_of(first, text),
        is_parse_of(second, text),
    ensures
        match (first, second) {
            (Ok(a), Ok(b)) => a@ == b@,
            (Err(a), Err(b)) => a == b,
            _ => false,
        },
{
}

impl Whkdrc {
    /// Loads the configuration from the text of its file: parses the text
    /// and mirrors the bindings, once. A text with a fault gives the fault
    /// and no configuration.
    pub fn load(contents: &str) -> (r: Result<Whkdrc, SyntaxError>)
        ensures
            match config_of(contents@) {
                Parsed::Done { value, next } => r matches Ok(config) && config@ == augmented(value)
                    && config@.well_formed(),
                Parsed::Failed { at, kind } => r matches Err(e) && e.is_fault(at, kind),
            },
    {
        match parser(contents) {
            Ok(mut config) => {
                proof {
                    law_mirroring_keeps_form(config@);
                }
                config.add_rwin_bindings();
                Ok(config)
            },
            Err(e) => Err(e),
        }
    }
}

} // verus!
