use vstd::prelude::*;

use crate::escape::{codes, interpret_escapes, interpreted, low_bytes};

verus! {

/// What the output of a run looks like: whether a newline ends it, whether escapes are
/// interpreted.
#[derive(Clone, Copy, Debug, PartialEq, Eq)]
pub struct Settings {
    pub trailing_newline: bool,
    pub interpret_backslash_escapes: bool,
}

impl Default for Settings {
    fn default() -> (r: Settings)
        ensures
            r.trailing_newline,
            !r.interpret_backslash_escapes,
    {
        Settings { trailing_newline: true, interpret_backslash_escapes: false }
    }
}

/// An option recognized while flags are read.
#[derive(Clone, Copy, Debug, PartialEq, Eq)]
pub enum Flag {
    NoNewline,
    Escapes,
    NoEscapes,
    Help,
    Version,
}

/// The argument that spells each option.
pub open spec fn flag_word(f: Flag) -> Seq<char> {
    match f {
        Flag::NoNewline => seq!['-', 'n'],
        Flag::Escapes => seq!['-', 'e'],
        Flag::NoEscapes => seq!['-', 'E'],
        Flag::Help => seq!['-', '-', 'h', 'e', 'l', 'p'],
        Flag::Version => seq!['-', '-', 'v', 'e', 'r', 's', 'i', 'o', 'n'],
    }
}

/// The option that an argument spells exactly, if any.
pub open spec fn flag_of(a: Seq<char>) -> Option<Flag> {
    if a == flag_word(Flag::NoNewline) {
        Some(Flag::NoNewline)
    } else if a == flag_word(Flag::Escapes) {
        Some(Flag::Escapes)
    } else if a == flag_word(Flag::NoEscapes) {
        Some(Flag::NoEscapes)
    } else if a == flag_word(Flag::Help) {
        Some(Flag::Help)
    } else if a == flag_word(Flag::Version) {
        Some(Flag::Version)
    } else {
        None
    }
}

/// The bytes that an argument becomes, escapes interpreted or not, and whether a `\c`
/// ended the output inside it.
pub open spec fn render(a: Seq<char>, interpret: bool) -> (Seq<u8>, bool) {
    if interpret {
        let (o, stop) = interpreted(codes(a));
        (low_bytes(o), stop)
    } else {
        (low_bytes(codes(a)), false)
    }
}

/// Whether `a` and `b` hold the same characters.
fn same_text(a: &str, b: &str) -> (r: bool)
    ensures
        r == (a@ == b@),
{
    let n = a.unicode_len();
    if n != b.unicode_len() {
        return false;
    }
    let mut i: usize = 0;
    while i < n
        invariant
            n == a@.len() == b@.len(),
            i <= n,
            forall|k: int| 0 <= k < i ==> a@[k] == b@[k],
        decreases n - i,
    {
        if a.get_char(i) != b.get_char(i) {
            return false;
        }
        i = i + 1;
    }
    assert(a@ =~= b@);
    true
}

/// The option that an argument spells, if any.
pub fn classify(arg: &str) -> (r: Option<Flag>)
    ensures
        r == flag_of(arg@),
{
    proof {
        reveal_strlit("-n");
        reveal_strlit("-e");
        reveal_strlit("-E");
        reveal_strlit("--help");
        reveal_strlit("--version");
    }
    if same_text(arg, "-n") {
        assert("-n"@ =~= flag_word(Flag::NoNewline));
        Some(Flag::NoNewline)
    } else if same_text(arg, "-e") {
        assert("-e"@ =~= flag_word(Flag::Escapes));
        assert(flag_word(Flag::Escapes) != flag_word(Flag::NoNewline));
        Some(Flag::Escapes)
    } else if same_text(arg, "-E") {
        assert("-E"@ =~= flag_word(Flag::NoEscapes));
        assert(flag_word(Flag::NoEscapes) != flag_word(Flag::NoNewline));
        assert(flag_word(Flag::NoEscapes) != flag_word(Flag::Escapes));
        Some(Flag::NoEscapes)
    } else if same_text(arg, "--help") {
        assert("--help"@ =~= flag_word(Flag::Help));
        assert(flag_word(Flag::Help).len() != flag_word(Flag::NoNewline).len());
        Some(Flag::Help)
    } else if same_text(arg, "--version") {
        assert("--version"@ =~= flag_word(Flag::Version));
        assert(flag_word(Flag::Version).len() != flag_word(Flag::NoNewline).len());
        assert(flag_word(Flag::Version).len() != flag_word(Flag::Help).len());
        Some(Flag::Version)
    } else {
        assert("-n"@ =~= flag_word(Flag::NoNewline));
        assert("-e"@ =~= flag_word(Flag::Escapes));
        assert("-E"@ =~= flag_word(Flag::NoEscapes));
        assert("--help"@ =~= flag_word(Flag::Help));
        assert("--version"@ =~= flag_word(Flag::Version));
        None
    }
}

/// The code points of a string.
fn code_points(arg: &str) -> (r: Vec<u32>)
    ensures
        r@ == codes(arg@),
{
    let n = arg.unicode_len();
    let mut r: Vec<u32> = Vec::new();
    let mut i: usize = 0;
    while i < n
        invariant
            n == arg@.len(),
            i <= n,
            r@ == codes(arg@).take(i as int),
        decreases n - i,
    {
        r.push(arg.get_char(i) as u32);
        i = i + 1;
        assert(r@ =~= codes(arg@).take(i as int));
    }
    assert(r@ =~= codes(arg@));
    r
}

/// The low byte of each code point.
fn to_bytes(s: &Vec<u32>) -> (r: Vec<u8>)
    ensures
        r@ == low_bytes(s@),
{
    let mut r: Vec<u8> = Vec::new();
    let mut i: usize = 0;
    while i < s.len()
        invariant
            i <= s@.len(),
            r@ == low_bytes(s@).take(i as int),
        decreases s@.len() - i,
    {
        r.push((s[i] % 256) as u8);
        i = i + 1;
        assert(r@ =~= low_bytes(s@).take(i as int));
    }
    assert(r@ =~= low_bytes(s@));
    r
}

/// The bytes that an argument becomes, and whether a `\c` ended the output inside it.
pub fn render_arg(arg: &str, interpret: bool) -> (r: (Vec<u8>, bool))
    ensures
        (r.0@, r.1) == render(arg@, interpret),
{
    let cps = code_points(arg);
    if interpret {
        let (o, stop) = interpret_escapes(&cps);
        (to_bytes(&o), stop)
    } else {
        (to_bytes(&cps), false)
    }
}

/// The bytes that an argument becomes under `settings`; a `\c` in it turns the trailing
/// newline off.
pub fn format_arg(arg: String, settings: &mut Settings) -> (r: Vec<u8>)
    ensures
        r@ == render(arg@, old(settings).interpret_backslash_escapes).0,
        final(settings).interpret_backslash_escapes == old(
            settings,
        ).interpret_backslash_escapes,
        final(settings).trailing_newline == (old(settings).trailing_newline && !render(
            arg@,
            old(settings).interpret_backslash_escapes,
        ).1),
{
    let (out, stop) = render_arg(arg.as_str(), settings.interpret_backslash_escapes);
    if stop {
        settings.trailing_newline = false;
    }
    out
}

/// What the caller does after handing over an argument, or at the end of a run.
#[derive(Debug, PartialEq, Eq)]
pub enum Action {
    /// Print the help text and exit with status 0.
    Help,
    /// Print the version line and exit with status 0.
    Version,
    /// Write these bytes to standard output as they are.
    Write(Vec<u8>),
}

/// The state of a run while its arguments are handed over one by one.
#[derive(Clone, Copy, Debug, PartialEq, Eq)]
pub struct Echo {
    pub settings: Settings,
    /// No argument but a recognized option has come yet.
    pub reading_flags: bool,
    /// An argument has been written, so the next one is preceded by a space.
    pub echoed: bool,
    /// A `\c` has ended the output: nothing more is written.
    pub ended: bool,
}

impl Echo {
    /// The state before the first argument.
    pub open spec fn start() -> Echo {
        Echo {
            settings: Settings { trailing_newline: true, interpret_backslash_escapes: false },
            reading_flags: true,
            echoed: false,
            ended: false,
        }
    }

    /// Once the output has ended, no option is read and no newline follows.
    pub open spec fn wf(self) -> bool {
        self.ended ==> !self.reading_flags && !self.settings.trailing_newline && self.echoed
    }

    /// Whether `a` is taken as an option.
    pub open spec fn takes_flag(self, a: Seq<char>) -> bool {
        self.reading_flags && flag_of(a) is Some
    }

    /// Whether `a` makes the run stop with help or version text.
    pub open spec fn exits_on(self, a: Seq<char>) -> bool {
        self.reading_flags && (flag_of(a) == Some(Flag::Help) || flag_of(a) == Some(
            Flag::Version,
        ))
    }

    /// The bytes written for argument `a`.
    pub open spec fn written(self, a: Seq<char>) -> Seq<u8> {
        if self.ended || self.takes_flag(a) {
            seq![]
        } else {
            let sep: Seq<u8> = if self.echoed {
                seq![32u8]
            } else {
                seq![]
            };
            sep + render(a, self.settings.interpret_backslash_escapes).0
        }
    }

    /// The state after argument `a`.
    pub open spec fn after(self, a: Seq<char>) -> Echo {
        if self.ended {
            self
        } else if self.takes_flag(a) {
            match flag_of(a) {
                Some(Flag::NoNewline) => Echo {
                    settings: Settings { trailing_newline: false, ..self.settings },
                    ..self
                },
                Some(Flag::Escapes) => Echo {
                    settings: Settings { interpret_backslash_escapes: true, ..self.settings },
                    ..self
                },
                Some(Flag::NoEscapes) => Echo {
                    settings: Settings { interpret_backslash_escapes: false, ..self.settings },
                    ..self
                },
                _ => self,
            }
        } else {
            let stop = render(a, self.settings.interpret_backslash_escapes).1;
            Echo {
                settings: Settings {
                    trailing_newline: self.settings.trailing_newline && !stop,
                    ..self.settings
                },
                reading_flags: false,
                echoed: true,
                ended: stop,
            }
        }
    }

    /// The bytes written once all arguments are through.
    pub open spec fn ending(self) -> Seq<u8> {
        if self.settings.trailing_newline {
            seq![10u8]
        } else {
            seq![]
        }
    }

    /// The state before the first argument.
    pub fn new() -> (r: Echo)
        ensures
            r == Echo::start(),
    {
        Echo {
            settings: Settings { trailing_newline: true, interpret_backslash_escapes: false },
            reading_flags: true,
            echoed: false,
            ended: false,
        }
    }

    /// Takes the next argument: reads it as an option while options are read, else
    /// writes it.
    pub fn step(&mut self, arg: &str) -> (r: Action)
        requires
            old(self).wf(),
        ensures
            final(self).wf(),
            (r is Help) == (old(self).reading_flags && flag_of(arg@) == Some(Flag::Help)),
            (r is Version) == (old(self).reading_flags && flag_of(arg@) == Some(Flag::Version)),
            r matches Action::Write(b) ==> b@ == old(self).written(arg@) && *final(self) == old(
                self,
            ).after(arg@),
            !(r is Write) ==> *final(self) == *old(self),
    {
        if self.ended {
            return Action::Write(Vec::new());
        }
        if self.reading_flags {
            match classify(arg) {
                Some(Flag::NoNewline) => {
                    self.settings.trailing_newline = false;
                    return Action::Write(Vec::new());
                },
                Some(Flag::Escapes) => {
                    self.settings.interpret_backslash_escapes = true;
                    return Action::Write(Vec::new());
                },
                Some(Flag::NoEscapes) => {
                    self.settings.interpret_backslash_escapes = false;
                    return Action::Write(Vec::new());
                },
                Some(Flag::Help) => {
                    return Action::Help;
                },
                Some(Flag::Version) => {
                    return Action::Version;
                },
                None => {},
            }
        }
        let (body, stop) = render_arg(arg, self.settings.interpret_backslash_escapes);
        let mut out: Vec<u8> = Vec::new();
        if self.echoed {
            out.push(32u8);
        }
        let ghost sep = out@;
        let mut body = body;
        out.append(&mut body);
        if stop {
            self.settings.trailing_newline = false;
        }
        self.reading_flags = false;
        self.echoed = true;
        self.ended = stop;
        assert(out@ =~= old(self).written(arg@));
        Action::Write(out)
    }

    /// The bytes written once all arguments are through: a newline, unless it was turned
    /// off.
    pub fn finish(&self) -> (r: Vec<u8>)
        ensures
            r@ == self.ending(),
    {
        if self.settings.trailing_newline {
            vec![10u8]
        } else {
            Vec::new()
        }
    }
}

/// A run over `args` from state `e`: the option that ended it early, if any, the bytes
/// written for the arguments, and the state at the end.
pub open spec fn run(e: Echo, args: Seq<Seq<char>>) -> (Option<Flag>, Seq<u8>, Echo)
    decreases args.len(),
{
    if args.len() == 0 {
        (None, seq![], e)
    } else if e.exits_on(args[0]) {
        (flag_of(args[0]), seq![], e)
    } else {
        let r = run(e.after(args[0]), args.skip(1));
        (r.0, e.written(args[0]) + r.1, r.2)
    }
}

/// The characters of each argument.
pub open spec fn texts(args: Seq<String>) -> Seq<Seq<char>> {
    args.map_values(|s: String| s@)
}

/// Runs over all arguments at once: help or version where one of them asks for it while
/// options are read, else all bytes written, the trailing newline included.
pub fn echo(args: &Vec<String>) -> (r: Action)
    ensures
        ({
            let (exit, body, last) = run(Echo::start(), texts(args@));
            match r {
                Action::Help => exit == Some(Flag::Help),
                Action::Version => exit == Some(Flag::Version),
                Action::Write(b) => exit is None && b@ == body + last.ending(),
            }
        }),
{
    let ghost all = texts(args@);
    let mut e = Echo::new();
    let mut out: Vec<u8> = Vec::new();
    let mut i: usize = 0;
    assert(all.skip(0) =~= all);
    while i < args.len()
        invariant
            i <= args@.len(),
            e.wf(),
            all == texts(args@),
            ({
                let whole = run(Echo::start(), all);
                let rest = run(e, all.skip(i as int));
                whole.0 == rest.0 && whole.1 == out@ + rest.1 && whole.2 == rest.2
            }),
        decreases args@.len() - i,
    {
        let ghost before = e;
        assert(all.skip(i as int).skip(1) =~= all.skip(i + 1));
        assert(all.skip(i as int)[0] == args@[i as int]@);
        match e.step(args[i].as_str()) {
            Action::Help => {
                return Action::Help;
            },
            Action::Version => {
                return Action::Version;
            },
            Action::Write(b) => {
                let ghost old_out = out@;
                let mut b = b;
                out.append(&mut b);
                assert(out@ + run(e, all.skip(i + 1)).1 =~= old_out + (before.written(
                    all.skip(i as int)[0],
                ) + run(e, all.skip(i + 1)).1));
            },
        }
        i = i + 1;
    }
    assert(all.skip(i as int) =~= Seq::<Seq<char>>::empty());
    let mut tail = e.finish();
    out.append(&mut tail);
    assert(out@ =~= run(Echo::start(), all).1 + run(Echo::start(), all).2.ending());
    Action::Write(out)
}

} // verus!
