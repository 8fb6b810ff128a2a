use vstd::prelude::*;
use vstd::string::*;
use std::path::PathBuf;
use crate::chars::{find_char, find_from, lemma_find_bounds, lemma_skip_word_bounds, lemma_skip_ws_bounds,
    skip_word, skip_word_from, skip_ws, skip_ws_from, spec_char_prefix, spec_trim_chars, spec_ws, str_chars,
    strip_prefix_str, trim_str};
use crate::parser::{parse_line_ref, spec_parse_line};
use crate::problems::process_instance::spec_has_non_ws;
use crate::util::str_equal;

verus! {

#[verifier::external_type_specification]
#[verifier::external_body]
pub struct ExPathBuf(PathBuf);

/// The abstract value of a device line of `adb devices -l`.
pub struct DeviceView {
    pub serial: Seq<char>,
    pub state: Seq<char>,
    pub model: Option<Seq<char>>,
    pub product: Option<Seq<char>>,
    pub transport_id: Option<Seq<char>>,
}

#[derive(Debug, PartialEq, Eq)]
pub struct AdbDevice {
    pub serial: String,
    pub state: String,
    pub model: Option<String>,
    pub product: Option<String>,
    pub transport_id: Option<String>,
}

/// The view of an optional text.
pub open spec fn spec_opt_view(s: Option<String>) -> Option<Seq<char>> {
    match s {
        Some(t) => Some(t@),
        None => None,
    }
}

impl View for AdbDevice {
    type V = DeviceView;

    open spec fn view(&self) -> DeviceView {
        DeviceView {
            serial: self.serial@,
            state: self.state@,
            model: spec_opt_view(self.model),
            product: spec_opt_view(self.product),
            transport_id: spec_opt_view(self.transport_id),
        }
    }
}

fn clone_opt(s: &Option<String>) -> (r: Option<String>)
    ensures
        spec_opt_view(r) == spec_opt_view(*s),
{
    match s {
        Some(t) => Some(t.clone()),
        None => None,
    }
}

impl Clone for AdbDevice {
    fn clone(&self) -> (r: Self)
        ensures
            r@ == self@,
    {
        AdbDevice {
            serial: self.serial.clone(),
            state: self.state.clone(),
            model: clone_opt(&self.model),
            product: clone_opt(&self.product),
            transport_id: clone_opt(&self.transport_id),
        }
    }
}

impl AdbDevice {
    /// The device is attached and authorized.
    pub fn online(&self) -> (r: bool)
        ensures
            r == (self.state@ == "device"@),
    {
        str_equal(self.state.as_str(), "device")
    }
}

#[derive(Debug, Clone, Copy, PartialEq, Eq, Structural)]
pub enum LogcatBuffer {
    Main,
    System,
    Radio,
    Events,
    Crash,
}

pub const DEFAULT_LOGCAT_COMMANDS: [&'static str; 5] = [
    "logcat -v threadtime -b main",
    "logcat -v threadtime -b system",
    "logcat -v threadtime -b radio",
    "logcat -v threadtime -b events",
    "logcat -v threadtime -b crash",
];

/// The name `logcat -b` takes for a buffer.
pub open spec fn spec_buffer_arg(b: LogcatBuffer) -> Seq<char> {
    match b {
        LogcatBuffer::Main => "main"@,
        LogcatBuffer::System => "system"@,
        LogcatBuffer::Radio => "radio"@,
        LogcatBuffer::Events => "events"@,
        LogcatBuffer::Crash => "crash"@,
    }
}

/// The buffer a `-b` name selects.
pub open spec fn spec_buffer_named(name: Seq<char>) -> Option<LogcatBuffer> {
    if name == "main"@ {
        Some(LogcatBuffer::Main)
    } else if name == "system"@ {
        Some(LogcatBuffer::System)
    } else if name == "radio"@ {
        Some(LogcatBuffer::Radio)
    } else if name == "events"@ {
        Some(LogcatBuffer::Events)
    } else if name == "crash"@ {
        Some(LogcatBuffer::Crash)
    } else {
        None
    }
}

impl LogcatBuffer {
    pub fn as_arg(self) -> (r: &'static str)
        ensures
            r@ == spec_buffer_arg(self),
    {
        match self {
            LogcatBuffer::Main => "main",
            LogcatBuffer::System => "system",
            LogcatBuffer::Radio => "radio",
            LogcatBuffer::Events => "events",
            LogcatBuffer::Crash => "crash",
        }
    }

    /// The buffer a `-b` name selects; any other name is refused with a message naming it.
    pub fn from_arg(value: &str) -> (r: Result<Self, String>)
        ensures
            match spec_buffer_named(value@) {
                Some(b) => r == Ok::<Self, String>(b),
                None => r matches Err(m) && m@ == "unsupported logcat buffer: "@ + value@,
            },
    {
        if str_equal(value, "main") {
            Ok(LogcatBuffer::Main)
        } else if str_equal(value, "system") {
            Ok(LogcatBuffer::System)
        } else if str_equal(value, "radio") {
            Ok(LogcatBuffer::Radio)
        } else if str_equal(value, "events") {
            Ok(LogcatBuffer::Events)
        } else if str_equal(value, "crash") {
            Ok(LogcatBuffer::Crash)
        } else {
            Err("unsupported logcat buffer: ".to_owned().concat(value))
        }
    }
}

/// The whitespace-separated words of `s` from position `i` on.
pub open spec fn spec_words_from(s: Seq<char>, i: int) -> Seq<Seq<char>>
    decreases s.len() - i,
{
    if i < 0 || i > s.len() {
        Seq::empty()
    } else {
        let a = skip_ws_from(s, i);
        if a >= s.len() {
            Seq::empty()
        } else {
            proof {
                lemma_skip_ws_bounds(s, i);
                lemma_skip_word_bounds(s, a);
            }
            let b = skip_word_from(s, a);
            if b <= i {
                Seq::empty()
            } else {
                seq![s.subrange(a, b)] + spec_words_from(s, b)
            }
        }
    }
}

/// The whitespace-separated words of `s`.
pub open spec fn spec_words(s: Seq<char>) -> Seq<Seq<char>> {
    spec_words_from(s, 0)
}

/// The whitespace-separated words of `s`, borrowed from it.
pub fn words(s: &str) -> (r: Vec<&str>)
    ensures
        r@.map_values(|w: &str| w@) == spec_words(s@),
{
    let chars = str_chars(s);
    let mut out: Vec<&str> = Vec::new();
    let mut i: usize = 0;
    loop
        invariant
            0 <= i <= chars@.len(),
            chars@ == s@,
            out@.map_values(|w: &str| w@) + spec_words_from(chars@, i as int) == spec_words(chars@),
        decreases chars@.len() - i,
    {
        let ghost before = out@.map_values(|w: &str| w@);
        proof {
            lemma_skip_ws_bounds(chars@, i as int);
        }
        let a = skip_ws(&chars, i);
        if a >= chars.len() {
            proof {
                assert(spec_words_from(chars@, i as int) =~= Seq::<Seq<char>>::empty());
                assert(out@.map_values(|w: &str| w@) =~= spec_words(chars@));
            }
            return out;
        }
        proof {
            lemma_skip_word_bounds(chars@, a as int);
        }
        let b = skip_word(&chars, a);
        proof {
            assert(b > a);
        }
        out.push(s.substring_char(a, b));
        proof {
            assert(out@.map_values(|w: &str| w@) =~= before.push(chars@.subrange(a as int, b as int)));
            assert(spec_words_from(chars@, i as int) == seq![chars@.subrange(a as int, b as int)] + spec_words_from(chars@, b as int));
            assert(before + spec_words_from(chars@, i as int) =~= before.push(chars@.subrange(a as int, b as int)) + spec_words_from(chars@, b as int));
        }
        i = b;
    }
}

/// Whether `s` holds a character that would chain or redirect a shell command.
pub open spec fn spec_has_shell_char(s: Seq<char>) -> bool {
    exists|i: int| 0 <= i < s.len() && (s[i] == '|' || s[i] == '&' || s[i] == ';' || s[i] == '>' || s[i] == '<')
}

/// The outcome of reading the `logcat` arguments `t` from the `i`-th on, with the buffer and
/// the `-v threadtime` and `-b` seen so far.
pub open spec fn spec_logcat_args(t: Seq<Seq<char>>, i: int, buffer: LogcatBuffer, saw_threadtime: bool, saw_buffer: bool) -> Result<LogcatBuffer, Seq<char>>
    decreases t.len() - i,
{
    if i < 0 || i >= t.len() {
        if saw_threadtime { Ok(buffer) } else { Err("only -v threadtime is supported"@) }
    } else if t[i] == "-v"@ {
        if i + 1 >= t.len() {
            Err("-v requires a value"@)
        } else if t[i + 1] != "threadtime"@ {
            Err("only -v threadtime is supported"@)
        } else {
            spec_logcat_args(t, i + 2, buffer, true, saw_buffer)
        }
    } else if t[i] == "-b"@ {
        if saw_buffer {
            Err("only one -b buffer is supported"@)
        } else if i + 1 >= t.len() {
            Err("-b requires a buffer"@)
        } else {
            match spec_buffer_named(t[i + 1]) {
                Some(b) => spec_logcat_args(t, i + 2, b, saw_threadtime, true),
                None => Err("unsupported logcat buffer: "@ + t[i + 1]),
            }
        }
    } else {
        Err("unsupported logcat argument: "@ + t[i])
    }
}

/// What `LogcatSpec::parse` gives for `s`: the buffer of a plain `logcat -v threadtime [-b
/// buffer]` command, or the message of the first problem.
pub open spec fn spec_parse_logcat(s: Seq<char>) -> Result<LogcatBuffer, Seq<char>> {
    let t = spec_words(s);
    if spec_has_shell_char(s) {
        Err("compound shell commands are not supported"@)
    } else if t.len() == 0 || t[0] != "logcat"@ {
        Err("command must start with logcat"@)
    } else {
        spec_logcat_args(t, 1, LogcatBuffer::Main, false, false)
    }
}

/// The normalized text of a logcat command on `buffer`.
pub open spec fn spec_logcat_text(buffer: LogcatBuffer) -> Seq<char> {
    "logcat -v threadtime -b "@ + spec_buffer_arg(buffer)
}

#[derive(Debug, Clone, Copy, PartialEq, Eq, Structural)]
pub struct LogcatSpec {
    pub buffer: LogcatBuffer,
}

fn has_shell_char(s: &str) -> (r: bool)
    ensures
        r == spec_has_shell_char(s@),
{
    let chars = str_chars(s);
    let mut i: usize = 0;
    while i < chars.len()
        invariant
            0 <= i <= chars@.len(),
            chars@ == s@,
            forall|k: int| 0 <= k < i ==> !(chars@[k] == '|' || chars@[k] == '&' || chars@[k] == ';' || chars@[k] == '>'
                || chars@[k] == '<'),
        decreases chars@.len() - i,
    {
        let c = chars[i];
        if c == '|' || c == '&' || c == ';' || c == '>' || c == '<' {
            return true;
        }
        i = i + 1;
    }
    false
}

impl LogcatSpec {
    /// Reads a preset command: only `logcat -v threadtime` with at most one supported
    /// `-b` buffer, and no shell syntax.
    pub fn parse(input: &str) -> (r: Result<Self, String>)
        ensures
            match spec_parse_logcat(input@) {
                Ok(b) => r == Ok::<Self, String>(LogcatSpec { buffer: b }),
                Err(m) => r matches Err(e) && e@ == m,
            },
    {
        if has_shell_char(input) {
            return Err("compound shell commands are not supported".to_owned());
        }
        let tokens = words(input);
        let ghost t = tokens@.map_values(|w: &str| w@);
        if tokens.len() == 0 || !str_equal(tokens[0], "logcat") {
            proof {
                if tokens@.len() > 0 {
                    assert(t[0] == tokens@[0]@);
                }
            }
            return Err("command must start with logcat".to_owned());
        }
        proof {
            assert(t[0] == tokens@[0]@);
        }
        let mut buffer = LogcatBuffer::Main;
        let mut saw_threadtime = false;
        let mut saw_buffer = false;
        let mut index: usize = 1;
        while index < tokens.len()
            invariant
                1 <= index <= tokens@.len() + 1,
                t == tokens@.map_values(|w: &str| w@),
                t == spec_words(input@),
                !spec_has_shell_char(input@),
                t.len() > 0 && t[0] == "logcat"@,
                spec_parse_logcat(input@) == spec_logcat_args(t, index as int, buffer, saw_threadtime, saw_buffer),
            decreases tokens@.len() + 1 - index,
        {
            let token = tokens[index];
            proof {
                assert(t[index as int] == token@);
            }
            if str_equal(token, "-v") {
                if index + 1 >= tokens.len() {
                    return Err("-v requires a value".to_owned());
                }
                proof {
                    assert(t[index + 1] == tokens@[index + 1]@);
                }
                if !str_equal(tokens[index + 1], "threadtime") {
                    return Err("only -v threadtime is supported".to_owned());
                }
                saw_threadtime = true;
                index = index + 2;
            } else if str_equal(token, "-b") {
                if saw_buffer {
                    return Err("only one -b buffer is supported".to_owned());
                }
                if index + 1 >= tokens.len() {
                    return Err("-b requires a buffer".to_owned());
                }
                proof {
                    assert(t[index + 1] == tokens@[index + 1]@);
                }
                buffer = match LogcatBuffer::from_arg(tokens[index + 1]) {
                    Ok(b) => b,
                    Err(e) => return Err(e),
                };
                saw_buffer = true;
                index = index + 2;
            } else {
                return Err("unsupported logcat argument: ".to_owned().concat(token));
            }
        }
        if !saw_threadtime {
            return Err("only -v threadtime is supported".to_owned());
        }
        Ok(LogcatSpec { buffer })
    }

    /// The command's normalized text.
    pub fn normalized(&self) -> (r: String)
        ensures
            r@ == spec_logcat_text(self.buffer),
    {
        "logcat -v threadtime -b ".to_owned().concat(self.buffer.as_arg())
    }
}

/// The normalized text of a logcat command reads back as that command.
pub proof fn lemma_normalized_command_parses_back(b: LogcatBuffer)
    ensures
        spec_parse_logcat(spec_logcat_text(b)) == Ok::<LogcatBuffer, Seq<char>>(b),
{
    reveal_strlit("logcat -v threadtime -b ");
    reveal_strlit("main");
    reveal_strlit("system");
    reveal_strlit("radio");
    reveal_strlit("events");
    reveal_strlit("crash");
    reveal_strlit("logcat");
    reveal_strlit("-v");
    reveal_strlit("threadtime");
    reveal_strlit("-b");
    let s = spec_logcat_text(b);
    let a = spec_buffer_arg(b);
    assert(s =~= seq!['l', 'o', 'g', 'c', 'a', 't', ' ', '-', 'v', ' ', 't', 'h', 'r', 'e', 'a', 'd', 't', 'i', 'm', 'e', ' ',
        '-', 'b', ' '] + a);
    assert(!spec_has_shell_char(s)) by {
        assert forall|i: int| 0 <= i < s.len() implies !(s[i] == '|' || s[i] == '&' || s[i] == ';' || s[i] == '>'
            || s[i] == '<') by {
            if i >= 24 {
                assert(s[i] == a[i - 24]);
            }
        }
    }
    assert(a.len() > 0 && forall|k: int| 0 <= k < a.len() ==> !spec_ws(#[trigger] a[k])) by {
        match b {
            LogcatBuffer::Main => {},
            LogcatBuffer::System => {},
            LogcatBuffer::Radio => {},
            LogcatBuffer::Events => {},
            LogcatBuffer::Crash => {},
        }
    }
    let n = s.len() as int;
    assert forall|k: int| 24 <= k < n implies !spec_ws(#[trigger] s[k]) by {
        assert(s[k] == a[k - 24]);
    }
    lemma_word_run(s, 0, 6);
    lemma_ws_run(s, 6, 7);
    lemma_word_run(s, 7, 9);
    lemma_ws_run(s, 9, 10);
    lemma_word_run(s, 10, 20);
    lemma_ws_run(s, 20, 21);
    lemma_word_run(s, 21, 23);
    lemma_ws_run(s, 23, 24);
    lemma_word_run(s, 24, n);
    lemma_ws_run(s, n, n);
    lemma_ws_run(s, 0, 0);
    assert(spec_words_from(s, n) =~= Seq::<Seq<char>>::empty());
    assert(s.subrange(24, n) =~= a);
    assert(spec_words_from(s, 23) =~= seq![a]);
    assert(s.subrange(21, 23) =~= "-b"@);
    assert(spec_words_from(s, 20) =~= seq!["-b"@, a]);
    assert(s.subrange(10, 20) =~= "threadtime"@);
    assert(spec_words_from(s, 9) =~= seq!["threadtime"@, "-b"@, a]);
    assert(s.subrange(7, 9) =~= "-v"@);
    assert(spec_words_from(s, 6) =~= seq!["-v"@, "threadtime"@, "-b"@, a]);
    assert(s.subrange(0, 6) =~= "logcat"@);
    let w = spec_words(s);
    assert(w =~= seq!["logcat"@, "-v"@, "threadtime"@, "-b"@, a]);
    assert(spec_buffer_named(a) == Some(b));
    assert(spec_logcat_args(w, 5, b, true, true) == Ok::<LogcatBuffer, Seq<char>>(b));
    assert(("-b"@)[1] != ("-v"@)[1]);
    assert(w[3] != "-v"@);
    assert(spec_logcat_args(w, 3, LogcatBuffer::Main, true, false) == Ok::<LogcatBuffer, Seq<char>>(b));
    assert(spec_logcat_args(w, 1, LogcatBuffer::Main, false, false) == Ok::<LogcatBuffer, Seq<char>>(b));
}

/// A run of non-whitespace from `i` to `j`, ended by whitespace or the end, is one word.
proof fn lemma_word_run(s: Seq<char>, i: int, j: int)
    requires
        0 <= i <= j <= s.len(),
        forall|k: int| i <= k < j ==> !spec_ws(#[trigger] s[k]),
        j < s.len() ==> spec_ws(s[j]),
    ensures
        skip_word_from(s, i) == j,
    decreases j - i,
{
    if i < j {
        lemma_word_run(s, i + 1, j);
    }
}

/// A run of whitespace from `i` to `j`, ended by a word or the end, is skipped whole.
proof fn lemma_ws_run(s: Seq<char>, i: int, j: int)
    requires
        0 <= i <= j <= s.len(),
        forall|k: int| i <= k < j ==> spec_ws(#[trigger] s[k]),
        j < s.len() ==> !spec_ws(s[j]),
    ensures
        skip_ws_from(s, i) == j,
    decreases j - i,
{
    if i < j {
        lemma_ws_run(s, i + 1, j);
    }
}

/// The five default commands, one per buffer.
pub open spec fn spec_default_commands() -> Seq<Seq<char>> {
    seq![
        spec_logcat_text(LogcatBuffer::Main),
        spec_logcat_text(LogcatBuffer::System),
        spec_logcat_text(LogcatBuffer::Radio),
        spec_logcat_text(LogcatBuffer::Events),
        spec_logcat_text(LogcatBuffer::Crash),
    ]
}

/// The commands kept from the first `n` presets: the defaults, then each preset that parses,
/// normalized, unless already present, up to twenty beyond the defaults.
pub open spec fn spec_presets(p: Seq<Seq<char>>, n: int) -> Seq<Seq<char>>
    decreases n,
{
    if n <= 0 {
        spec_default_commands()
    } else {
        let prev = spec_presets(p, n - 1);
        if prev.len() >= 25 {
            prev
        } else {
            match spec_parse_logcat(p[n - 1]) {
                Ok(b) => if prev.contains(spec_logcat_text(b)) {
                    prev
                } else {
                    prev.push(spec_logcat_text(b))
                },
                Err(_) => prev,
            }
        }
    }
}

proof fn lemma_logcat_args_shape(t: Seq<Seq<char>>, i: int, buffer: LogcatBuffer, saw_threadtime: bool, saw_buffer: bool)
    requires
        0 <= i,
        spec_logcat_args(t, i, buffer, saw_threadtime, saw_buffer) is Ok,
    ensures
        saw_threadtime || exists|j: int| i <= j && j + 1 < t.len() && t[j] == "-v"@ && #[trigger] t[j + 1] == "threadtime"@,
        forall|j1: int, j2: int| i <= j1 < j2 < t.len() ==> !(#[trigger] t[j1] == "-b"@ && #[trigger] t[j2] == "-b"@),
        saw_buffer ==> forall|j: int| i <= j < t.len() ==> #[trigger] t[j] != "-b"@,
    decreases t.len() - i,
{
    reveal_strlit("-v");
    reveal_strlit("-b");
    reveal_strlit("threadtime");
    reveal_strlit("main");
    reveal_strlit("system");
    reveal_strlit("radio");
    reveal_strlit("events");
    reveal_strlit("crash");
    if i < t.len() {
        if t[i] == "-v"@ {
            lemma_logcat_args_shape(t, i + 2, buffer, true, saw_buffer);
            assert(t[i] != "-b"@) by {
                assert(t[i][1] != "-b"@[1]);
            }
            assert(t[i + 1] != "-b"@) by {
                assert(t[i + 1].len() != "-b"@.len());
            }
        } else if t[i] == "-b"@ {
            let name = t[i + 1];
            let b = spec_buffer_named(name)->Some_0;
            lemma_logcat_args_shape(t, i + 2, b, saw_threadtime, true);
            assert(name != "-b"@) by {
                assert(name.len() != "-b"@.len());
            }
        }
    }
}

/// A command that parses holds no shell operator, starts with `logcat`, holds the pair
/// `-v threadtime` and at most one `-b`; and its normalized text parses back to it.
pub proof fn lemma_parsed_command_shape(s: Seq<char>)
    requires
        spec_parse_logcat(s) is Ok,
    ensures
        !spec_has_shell_char(s),
        spec_words(s).len() > 0 && spec_words(s)[0] == "logcat"@,
        exists|j: int| 1 <= j && j + 1 < spec_words(s).len() && spec_words(s)[j] == "-v"@ && #[trigger] spec_words(s)[j + 1]
            == "threadtime"@,
        forall|j1: int, j2: int| 0 <= j1 < j2 < spec_words(s).len() ==> !(#[trigger] spec_words(s)[j1] == "-b"@
            && #[trigger] spec_words(s)[j2] == "-b"@),
        spec_parse_logcat(spec_logcat_text(spec_parse_logcat(s)->Ok_0)) == spec_parse_logcat(s),
{
    let t = spec_words(s);
    lemma_logcat_args_shape(t, 1, LogcatBuffer::Main, false, false);
    lemma_normalized_command_parses_back(spec_parse_logcat(s)->Ok_0);
    reveal_strlit("logcat");
    reveal_strlit("-b");
    assert(t[0] != "-b"@) by {
        assert(t[0].len() != "-b"@.len());
    }
}

/// Every valid preset normalizes to the command of one of the five buffers, which the
/// defaults already hold: the presets always collapse to the five defaults.
pub proof fn lemma_presets_collapse_to_defaults(p: Seq<Seq<char>>, n: int)
    requires
        0 <= n <= p.len(),
    ensures
        spec_presets(p, n) == spec_default_commands(),
    decreases n,
{
    if n > 0 {
        lemma_presets_collapse_to_defaults(p, n - 1);
        let d = spec_default_commands();
        match spec_parse_logcat(p[n - 1]) {
            Ok(b) => {
                let i: int = match b {
                    LogcatBuffer::Main => 0,
                    LogcatBuffer::System => 1,
                    LogcatBuffer::Radio => 2,
                    LogcatBuffer::Events => 3,
                    LogcatBuffer::Crash => 4,
                };
                assert(d[i] == spec_logcat_text(b));
                assert(d.contains(spec_logcat_text(b)));
            },
            Err(_) => {},
        }
    }
}

fn contains_text(items: &Vec<String>, text: &String) -> (r: bool)
    ensures
        r == items@.map_values(|s: String| s@).contains(text@),
{
    let mut i: usize = 0;
    while i < items.len()
        invariant
            0 <= i <= items@.len(),
            forall|k: int| 0 <= k < i ==> (#[trigger] items@[k])@ != text@,
        decreases items@.len() - i,
    {
        if str_equal(items[i].as_str(), text.as_str()) {
            proof {
                assert(items@.map_values(|s: String| s@)[i as int] == text@);
            }
            return true;
        }
        i = i + 1;
    }
    proof {
        let mapped = items@.map_values(|s: String| s@);
        if mapped.contains(text@) {
            let k = choose|k: int| 0 <= k < mapped.len() && #[trigger] mapped[k] == text@;
            assert(items@[k]@ == text@);
        }
    }
    false
}

/// The command presets to offer: the defaults, then the valid custom ones, normalized and
/// without repeats, at most twenty-five in all.
pub fn normalize_command_presets(presets: Vec<String>) -> (r: Vec<String>)
    ensures
        r@.map_values(|s: String| s@) == spec_presets(presets@.map_values(|s: String| s@), presets@.len() as int),
{
    let ghost p = presets@.map_values(|s: String| s@);
    let mut out: Vec<String> = Vec::new();
    let mut k: usize = 0;
    while k < 5
        invariant
            0 <= k <= 5,
            out@.map_values(|s: String| s@) == spec_default_commands().take(k as int),
        decreases 5 - k,
    {
        let command = DEFAULT_LOGCAT_COMMANDS[k];
        let buffer = match k {
            0 => LogcatBuffer::Main,
            1 => LogcatBuffer::System,
            2 => LogcatBuffer::Radio,
            3 => LogcatBuffer::Events,
            _ => LogcatBuffer::Crash,
        };
        let text = LogcatSpec { buffer }.normalized();
        proof {
            assert(spec_default_commands().take(k + 1) =~= spec_default_commands().take(k as int).push(text@));
        }
        out.push(text);
        k = k + 1;
    }
    proof {
        assert(spec_default_commands().take(5) =~= spec_default_commands());
    }
    let mut i: usize = 0;
    while i < presets.len()
        invariant
            0 <= i <= presets@.len(),
            p == presets@.map_values(|s: String| s@),
            out@.map_values(|s: String| s@) == spec_presets(p, i as int),
        decreases presets@.len() - i,
    {
        if out.len() < 25 {
            proof {
                assert(p[i as int] == presets@[i as int]@);
            }
            match LogcatSpec::parse(presets[i].as_str()) {
                Ok(command) => {
                    let normalized = command.normalized();
                    if !contains_text(&out, &normalized) {
                        let ghost before = out@.map_values(|s: String| s@);
                        out.push(normalized);
                        proof {
                            assert(out@.map_values(|s: String| s@) =~= before.push(spec_logcat_text(command.buffer)));
                        }
                    }
                },
                Err(_) => {},
            }
        }
        i = i + 1;
    }
    out
}

#[derive(Debug)]
pub struct LogcatCommand {
    pub adb_path: PathBuf,
    pub args: Vec<String>,
}

/// The buffers in first-seen order without repeats; the main buffer when none is given.
pub open spec fn spec_unique_buffers(b: Seq<LogcatBuffer>, n: int) -> Seq<LogcatBuffer>
    decreases n,
{
    if n <= 0 {
        Seq::empty()
    } else if spec_unique_buffers(b, n - 1).contains(b[n - 1]) {
        spec_unique_buffers(b, n - 1)
    } else {
        spec_unique_buffers(b, n - 1).push(b[n - 1])
    }
}

pub open spec fn spec_normalized_buffers(b: Seq<LogcatBuffer>) -> Seq<LogcatBuffer> {
    if b.len() == 0 { seq![LogcatBuffer::Main] } else { spec_unique_buffers(b, b.len() as int) }
}

fn normalized_buffers(buffers: &[LogcatBuffer]) -> (r: Vec<LogcatBuffer>)
    ensures
        r@ == spec_normalized_buffers(buffers@),
{
    if buffers.len() == 0 {
        let mut v: Vec<LogcatBuffer> = Vec::new();
        v.push(LogcatBuffer::Main);
        proof {
            assert(v@ =~= seq![LogcatBuffer::Main]);
        }
        return v;
    }
    let mut out: Vec<LogcatBuffer> = Vec::new();
    let mut i: usize = 0;
    while i < buffers.len()
        invariant
            0 <= i <= buffers@.len(),
            out@ == spec_unique_buffers(buffers@, i as int),
        decreases buffers@.len() - i,
    {
        let b = buffers[i];
        let mut seen = false;
        let mut k: usize = 0;
        while k < out.len()
            invariant
                0 <= k <= out@.len(),
                seen == exists|j: int| 0 <= j < k && out@[j] == b,
            decreases out@.len() - k,
        {
            if out[k] == b {
                seen = true;
            }
            proof {
                if seen && out@[k as int] != b {
                    let j = choose|j: int| 0 <= j < k && out@[j] == b;
                    assert(0 <= j < k + 1 && out@[j] == b);
                }
                if out@[k as int] == b {
                    assert(0 <= k < k + 1 && out@[k as int] == b);
                }
            }
            k = k + 1;
        }
        proof {
            if seen {
                let j = choose|j: int| 0 <= j < out@.len() && out@[j] == b;
                assert(out@.contains(b));
            } else {
                assert(!out@.contains(b));
            }
        }
        if !seen {
            out.push(b);
        }
        i = i + 1;
    }
    out
}

/// The arguments of `adb` for a threadtime logcat of `serial` on the buffers, optionally
/// resuming at `since`.
pub open spec fn spec_logcat_args_for(serial: Seq<char>, buffers: Seq<LogcatBuffer>, since: Option<Seq<char>>) -> Seq<Seq<char>> {
    let base = seq!["-s"@, serial, "logcat"@, "-v"@, "threadtime"@];
    let bufs = spec_buffer_args(spec_normalized_buffers(buffers), spec_normalized_buffers(buffers).len() as int);
    match since {
        Some(t) => base + bufs + seq!["-T"@, t],
        None => base + bufs,
    }
}

/// `-b name` for each of the first `n` buffers.
pub open spec fn spec_buffer_args(b: Seq<LogcatBuffer>, n: int) -> Seq<Seq<char>>
    decreases n,
{
    if n <= 0 {
        Seq::empty()
    } else {
        spec_buffer_args(b, n - 1) + seq!["-b"@, spec_buffer_arg(b[n - 1])]
    }
}

pub fn build_logcat_command(adb_path: PathBuf, serial: &str, buffers: &[LogcatBuffer], since: Option<&str>) -> (r: LogcatCommand)
    ensures
        r.adb_path == adb_path,
        r.args@.map_values(|s: String| s@) == spec_logcat_args_for(serial@, buffers@, match since {
            Some(t) => Some(t@),
            None => None,
        }),
{
    let mut args: Vec<String> = Vec::new();
    args.push("-s".to_owned());
    args.push(serial.to_owned());
    args.push("logcat".to_owned());
    args.push("-v".to_owned());
    args.push("threadtime".to_owned());
    let ghost base = args@.map_values(|s: String| s@);
    proof {
        assert(base =~= seq!["-s"@, serial@, "logcat"@, "-v"@, "threadtime"@]);
    }
    let bufs = normalized_buffers(buffers);
    let mut i: usize = 0;
    while i < bufs.len()
        invariant
            0 <= i <= bufs@.len(),
            args@.map_values(|s: String| s@) == base + spec_buffer_args(bufs@, i as int),
        decreases bufs@.len() - i,
    {
        let ghost before = args@.map_values(|s: String| s@);
        args.push("-b".to_owned());
        args.push(bufs[i].as_arg().to_owned());
        proof {
            let b = seq!["-b"@, spec_buffer_arg(bufs@[i as int])];
            assert(args@.map_values(|s: String| s@) =~= before + b);
            assert(spec_buffer_args(bufs@, i + 1) == spec_buffer_args(bufs@, i as int) + b);
            assert(base + spec_buffer_args(bufs@, i + 1) =~= base + spec_buffer_args(bufs@, i as int) + b);
        }
        i = i + 1;
    }
    if let Some(t) = since {
        let ghost before = args@.map_values(|s: String| s@);
        args.push("-T".to_owned());
        args.push(t.to_owned());
        proof {
            assert(args@.map_values(|s: String| s@) =~= before + seq!["-T"@, t@]);
        }
    }
    LogcatCommand { adb_path, args }
}

/// The device to use: the requested online one, or else the first online one.
pub open spec fn spec_select(devices: Seq<DeviceView>, requested: Option<Seq<char>>) -> Result<DeviceView, Seq<char>> {
    match requested {
        Some(s) if spec_has_non_ws(s) => match spec_first_online(devices, Some(s), devices.len() as int) {
            Some(d) => Ok(d),
            None => Err("adb device is not online: "@ + s),
        },
        _ => match spec_first_online(devices, None, devices.len() as int) {
            Some(d) => Ok(d),
            None => Err("no online adb device found"@),
        },
    }
}

/// The first online device among the first `n` (with the given serial, if any).
pub open spec fn spec_first_online(devices: Seq<DeviceView>, serial: Option<Seq<char>>, n: int) -> Option<DeviceView>
    decreases n,
{
    if n <= 0 {
        None
    } else {
        match spec_first_online(devices, serial, n - 1) {
            Some(d) => Some(d),
            None => {
                let d = devices[n - 1];
                if d.state == "device"@ && (serial matches Some(s) ==> d.serial == s) {
                    Some(d)
                } else {
                    None
                }
            },
        }
    }
}

fn has_non_ws(s: &str) -> (r: bool)
    ensures
        r == spec_has_non_ws(s@),
{
    let chars = str_chars(s);
    let lo = skip_ws(&chars, 0);
    proof {
        lemma_skip_ws_bounds(chars@, 0);
        if lo < chars@.len() {
            assert(!spec_ws(chars@[lo as int]));
        } else {
            assert forall|i: int| 0 <= i < chars@.len() implies spec_ws(#[trigger] chars@[i]) by {}
        }
    }
    lo < chars.len()
}

pub fn select_online_device(devices: &[AdbDevice], requested_serial: Option<&str>) -> (r: Result<AdbDevice, String>)
    ensures
        match spec_select(devices@.map_values(|d: AdbDevice| d@), match requested_serial {
            Some(s) => Some(s@),
            None => None,
        }) {
            Ok(d) => r matches Ok(found) && found@ == d,
            Err(m) => r matches Err(e) && e@ == m,
        },
{
    let ghost views = devices@.map_values(|d: AdbDevice| d@);
    let wanted: Option<&str> = match requested_serial {
        Some(s) => if has_non_ws(s) { Some(s) } else { None },
        None => None,
    };
    let mut i: usize = 0;
    while i < devices.len()
        invariant
            0 <= i <= devices@.len(),
            views == devices@.map_values(|d: AdbDevice| d@),
            wanted == match requested_serial {
                Some(s) => if spec_has_non_ws(s@) { Some(s) } else { None },
                None => None,
            },
            spec_first_online(views, match wanted { Some(s) => Some(s@), None => None }, i as int) is None,
        decreases devices@.len() - i,
    {
        let d = &devices[i];
        proof {
            assert(views[i as int] == d@);
        }
        let serial_ok = match wanted {
            Some(s) => str_equal(d.serial.as_str(), s),
            None => true,
        };
        if serial_ok && d.online() {
            proof {
                assert(spec_first_online(views, match wanted { Some(s) => Some(s@), None => None }, i + 1) == Some(d@));
                lemma_first_online_stays(views, match wanted { Some(s) => Some(s@), None => None }, i + 1, views.len() as int);
                match requested_serial {
                    Some(s) => {
                        if spec_has_non_ws(s@) {
                            assert(wanted == Some(s));
                        } else {
                            assert(wanted is None);
                        }
                    },
                    None => {
                        assert(wanted is None);
                    },
                }
                assert(spec_select(views, match requested_serial { Some(s) => Some(s@), None => None }) == Ok::<DeviceView, Seq<char>>(d@));
            }
            let found = d.clone();
            assert(found@ == d@);
            return Ok(found);
        }
        i = i + 1;
    }
    proof {
        assert(spec_first_online(views, match wanted { Some(s) => Some(s@), None => None }, views.len() as int) is None);
    }
    match wanted {
        Some(s) => Err("adb device is not online: ".to_owned().concat(s)),
        None => Err("no online adb device found".to_owned()),
    }
}

/// `d` is online and, where a serial is asked for, has it.
pub open spec fn spec_device_fits(d: DeviceView, serial: Option<Seq<char>>) -> bool {
    d.state == "device"@ && (serial matches Some(s) ==> d.serial == s)
}

proof fn lemma_first_online_is_first_fit(devices: Seq<DeviceView>, serial: Option<Seq<char>>, n: int)
    requires
        0 <= n <= devices.len(),
    ensures
        match spec_first_online(devices, serial, n) {
            Some(d) => exists|i: int| 0 <= i < n && devices[i] == d && spec_device_fits(d, serial)
                && forall|j: int| 0 <= j < i ==> !spec_device_fits(#[trigger] devices[j], serial),
            None => forall|j: int| 0 <= j < n ==> !spec_device_fits(#[trigger] devices[j], serial),
        },
    decreases n,
{
    if n > 0 {
        lemma_first_online_is_first_fit(devices, serial, n - 1);
        if spec_first_online(devices, serial, n - 1) is None {
            if spec_device_fits(devices[n - 1], serial) {
                assert(spec_first_online(devices, serial, n) == Some(devices[n - 1]));
            } else {
                assert forall|j: int| 0 <= j < n implies !spec_device_fits(#[trigger] devices[j], serial) by {
                    if j < n - 1 {
                    }
                }
            }
        }
    }
}

/// Device selection picks the first online device with the requested serial (when a serial
/// that is not blank is asked for) or else the first online device, and fails only when no
/// device fits.
pub proof fn lemma_selection_picks_first_online(devices: Seq<DeviceView>, requested: Option<Seq<char>>)
    ensures
        ({
            let serial = match requested {
                Some(s) => if spec_has_non_ws(s) { Some(s) } else { None },
                None => None,
            };
            match spec_select(devices, requested) {
                Ok(d) => exists|i: int| 0 <= i < devices.len() && devices[i] == d && spec_device_fits(d, serial)
                    && forall|j: int| 0 <= j < i ==> !spec_device_fits(#[trigger] devices[j], serial),
                Err(_) => forall|j: int| 0 <= j < devices.len() ==> !spec_device_fits(#[trigger] devices[j], serial),
            }
        }),
{
    let serial = match requested {
        Some(s) => if spec_has_non_ws(s) { Some(s) } else { None },
        None => None,
    };
    lemma_first_online_is_first_fit(devices, serial, devices.len() as int);
}

proof fn lemma_first_online_stays(devices: Seq<DeviceView>, serial: Option<Seq<char>>, m: int, n: int)
    requires
        0 <= m <= n,
        spec_first_online(devices, serial, m) is Some,
    ensures
        spec_first_online(devices, serial, n) == spec_first_online(devices, serial, m),
    decreases n - m,
{
    if m < n {
        lemma_first_online_stays(devices, serial, m, n - 1);
    }
}

/// The pieces of `s` between line feeds, from position `i` on.
pub open spec fn spec_segments_from(s: Seq<char>, i: int) -> Seq<Seq<char>>
    decreases s.len() + 1 - i,
{
    if i < 0 || i > s.len() {
        Seq::empty()
    } else {
        proof {
            lemma_find_bounds(s, '\n', i);
        }
        let j = find_from(s, '\n', i);
        seq![s.subrange(i, j)] + spec_segments_from(s, j + 1)
    }
}

/// The pieces of `s` between line feeds. A carriage return stays with its line; every reader
/// below either trims it or ignores it, and an empty last piece holds no device or entry.
pub open spec fn spec_segments(s: Seq<char>) -> Seq<Seq<char>> {
    spec_segments_from(s, 0)
}

fn split_lines(s: &str) -> (r: Vec<&str>)
    ensures
        r@.map_values(|w: &str| w@) == spec_segments(s@),
{
    let chars = str_chars(s);
    let mut out: Vec<&str> = Vec::new();
    let mut i: usize = 0;
    loop
        invariant
            0 <= i <= chars@.len(),
            chars@ == s@,
            out@.map_values(|w: &str| w@) + spec_segments_from(chars@, i as int) == spec_segments(chars@),
        decreases chars@.len() - i,
    {
        let ghost before = out@.map_values(|w: &str| w@);
        let j = find_char(&chars, '\n', i);
        out.push(s.substring_char(i, j));
        proof {
            assert(out@.map_values(|w: &str| w@) =~= before.push(chars@.subrange(i as int, j as int)));
            assert(before + spec_segments_from(chars@, i as int) =~= before.push(chars@.subrange(i as int, j as int))
                + spec_segments_from(chars@, j + 1));
        }
        if j >= chars.len() {
            proof {
                assert(spec_segments_from(chars@, j + 1) =~= Seq::<Seq<char>>::empty());
                assert(out@.map_values(|w: &str| w@) =~= spec_segments(chars@));
            }
            return out;
        }
        i = j + 1;
    }
}

/// The value after `p` of the last of the words `w[2..n]` that begins with `p`.
pub open spec fn spec_last_tagged(w: Seq<Seq<char>>, p: Seq<char>, n: int) -> Option<Seq<char>>
    decreases n,
{
    if n <= 2 {
        None
    } else if spec_char_prefix(w[n - 1], p) {
        Some(w[n - 1].subrange(p.len() as int, w[n - 1].len() as int))
    } else {
        spec_last_tagged(w, p, n - 1)
    }
}

/// The device that one line of `adb devices -l` describes: its serial, its state
/// (`unknown` when missing), and the last `model:`, `product:` and `transport_id:` values.
/// Blank lines and the header describe none.
pub open spec fn spec_device_line(line: Seq<char>) -> Option<DeviceView> {
    let t = spec_trim_chars(line);
    let w = spec_words(t);
    if t.len() == 0 || spec_char_prefix(t, "List of devices attached"@) || w.len() == 0 {
        None
    } else {
        Some(DeviceView {
            serial: w[0],
            state: if w.len() > 1 { w[1] } else { "unknown"@ },
            model: spec_last_tagged(w, "model:"@, w.len() as int),
            product: spec_last_tagged(w, "product:"@, w.len() as int),
            transport_id: spec_last_tagged(w, "transport_id:"@, w.len() as int),
        })
    }
}

/// The devices that the first `n` lines describe, in order.
pub open spec fn spec_devices(lines: Seq<Seq<char>>, n: int) -> Seq<DeviceView>
    decreases n,
{
    if n <= 0 {
        Seq::empty()
    } else {
        match spec_device_line(lines[n - 1]) {
            Some(d) => spec_devices(lines, n - 1).push(d),
            None => spec_devices(lines, n - 1),
        }
    }
}

/// What `parse_adb_devices` gives for the output `s`.
pub open spec fn spec_parse_devices(s: Seq<char>) -> Seq<DeviceView> {
    spec_devices(spec_segments(s), spec_segments(s).len() as int)
}

fn tagged_value(part: &str, prefix: &str, current: Option<String>) -> (r: Option<String>)
    ensures
        spec_opt_view(r) == if spec_char_prefix(part@, prefix@) {
            Some(part@.subrange(prefix@.len() as int, part@.len() as int))
        } else {
            spec_opt_view(current)
        },
{
    match strip_prefix_str(part, prefix) {
        Some(v) => Some(v.to_owned()),
        None => current,
    }
}

fn parse_device_line(line: &str) -> (r: Option<AdbDevice>)
    ensures
        match r {
            Some(d) => spec_device_line(line@) == Some(d@),
            None => spec_device_line(line@) is None,
        },
{
    let t = trim_str(line);
    if t.unicode_len() == 0 {
        return None;
    }
    if strip_prefix_str(t, "List of devices attached").is_some() {
        return None;
    }
    let parts = words(t);
    let ghost w = parts@.map_values(|x: &str| x@);
    if parts.len() == 0 {
        return None;
    }
    proof {
        assert(w[0] == parts@[0]@);
    }
    let serial = parts[0].to_owned();
    let state = if parts.len() > 1 {
        proof {
            assert(w[1] == parts@[1]@);
        }
        parts[1].to_owned()
    } else {
        "unknown".to_owned()
    };
    let mut model: Option<String> = None;
    let mut product: Option<String> = None;
    let mut transport_id: Option<String> = None;
    let mut i: usize = 2;
    while i < parts.len()
        invariant
            2 <= i,
            i <= parts@.len() || parts@.len() < 2,
            w == parts@.map_values(|x: &str| x@),
            spec_opt_view(model) == spec_last_tagged(w, "model:"@, if i <= parts@.len() { i as int } else { parts@.len() as int }),
            spec_opt_view(product) == spec_last_tagged(w, "product:"@, if i <= parts@.len() { i as int } else { parts@.len() as int }),
            spec_opt_view(transport_id) == spec_last_tagged(w, "transport_id:"@, if i <= parts@.len() { i as int } else { parts@.len() as int }),
        decreases parts@.len() - i,
    {
        let part = parts[i];
        proof {
            assert(w[i as int] == part@);
        }
        model = tagged_value(part, "model:", model);
        product = tagged_value(part, "product:", product);
        transport_id = tagged_value(part, "transport_id:", transport_id);
        i = i + 1;
    }
    Some(AdbDevice { serial, state, model, product, transport_id })
}

/// Reads the output of `adb devices -l`: one device per line that names one.
pub fn parse_adb_devices(output: &str) -> (r: Vec<AdbDevice>)
    ensures
        r@.map_values(|d: AdbDevice| d@) == spec_parse_devices(output@),
{
    let lines = split_lines(output);
    let ghost segs = lines@.map_values(|w: &str| w@);
    let mut out: Vec<AdbDevice> = Vec::new();
    let mut i: usize = 0;
    while i < lines.len()
        invariant
            0 <= i <= lines@.len(),
            segs == lines@.map_values(|w: &str| w@),
            segs == spec_segments(output@),
            out@.map_values(|d: AdbDevice| d@) == spec_devices(segs, i as int),
        decreases lines@.len() - i,
    {
        let ghost before = out@.map_values(|d: AdbDevice| d@);
        proof {
            assert(segs[i as int] == lines@[i as int]@);
        }
        match parse_device_line(lines[i]) {
            Some(d) => {
                out.push(d);
                proof {
                    assert(out@.map_values(|d: AdbDevice| d@) =~= before.push(d@));
                }
            },
            None => {},
        }
        i = i + 1;
    }
    out
}

/// Whether `d` reads `MM-DD` in ASCII digits.
pub open spec fn spec_date_shape(d: Seq<char>) -> bool {
    d.len() == 5 && d[2] == '-' && forall|i: int| 0 <= i < 5 && i != 2 ==> '0' <= #[trigger] d[i] <= '9'
}

/// Whether `t` reads `HH:MM:SS.mmm` in ASCII digits.
pub open spec fn spec_time_shape(t: Seq<char>) -> bool {
    &&& t.len() == 12
    &&& t[2] == ':' && t[5] == ':' && t[8] == '.'
    &&& forall|i: int| 0 <= i < 12 && i != 2 && i != 5 && i != 8 ==> '0' <= #[trigger] t[i] <= '9'
}

/// The `MM-DD HH:MM:SS.mmm` stamp of a line, when it parses to a well-shaped date and time.
pub open spec fn spec_line_stamp(line: Seq<char>) -> Option<Seq<char>> {
    let v = spec_parse_line(line);
    if spec_date_shape(v.date) && spec_time_shape(v.time) {
        Some(v.date + " "@ + v.time)
    } else {
        None
    }
}

/// The stamp of the last of the first `n` lines that has one.
pub open spec fn spec_last_stamp(lines: Seq<Seq<char>>, n: int) -> Option<Seq<char>>
    decreases n,
{
    if n <= 0 {
        None
    } else {
        match spec_line_stamp(lines[n - 1]) {
            Some(t) => Some(t),
            None => spec_last_stamp(lines, n - 1),
        }
    }
}

fn shaped(s: &str, len: usize, seps: &[(usize, char)]) -> (r: bool)
    requires
        len <= 16,
        seps@.len() <= 3,
        forall|k: int| 0 <= k < seps@.len() ==> (#[trigger] seps@[k]).0 < len,
    ensures
        r == (s@.len() == len && (forall|k: int| 0 <= k < seps@.len() ==> s@[(#[trigger] seps@[k]).0 as int] == seps@[k].1)
            && forall|i: int| 0 <= i < len && !(exists|k: int| 0 <= k < seps@.len() && seps@[k].0 == i) ==> '0' <= #[trigger] s@[i] <= '9'),
{
    let chars = str_chars(s);
    if chars.len() != len {
        return false;
    }
    let mut k: usize = 0;
    while k < seps.len()
        invariant
            0 <= k <= seps@.len(),
            chars@ == s@,
            chars@.len() == len,
            forall|q: int| 0 <= q < seps@.len() ==> (#[trigger] seps@[q]).0 < len,
            forall|q: int| 0 <= q < k ==> s@[(#[trigger] seps@[q]).0 as int] == seps@[q].1,
        decreases seps@.len() - k,
    {
        let (at, c) = seps[k];
        if chars[at] != c {
            return false;
        }
        k = k + 1;
    }
    let mut i: usize = 0;
    while i < len
        invariant
            0 <= i <= len,
            chars@ == s@,
            chars@.len() == len,
            forall|q: int| 0 <= q < seps@.len() ==> (#[trigger] seps@[q]).0 < len,
            forall|j: int| 0 <= j < i && !(exists|q: int| 0 <= q < seps@.len() && seps@[q].0 == j) ==> '0' <= #[trigger] s@[j] <= '9',
        decreases len - i,
    {
        let mut sep = false;
        let mut q: usize = 0;
        while q < seps.len()
            invariant
                0 <= q <= seps@.len(),
                sep == exists|p: int| 0 <= p < q && seps@[p].0 == i,
            decreases seps@.len() - q,
        {
            if seps[q].0 == i {
                sep = true;
            }
            proof {
                if seps@[q as int].0 == i {
                    assert(0 <= q < q + 1 && seps@[q as int].0 == i);
                }
                if sep && seps@[q as int].0 != i {
                    let p = choose|p: int| 0 <= p < q && seps@[p].0 == i;
                    assert(0 <= p < q + 1 && seps@[p].0 == i);
                }
            }
            q = q + 1;
        }
        if !sep && !('0' <= chars[i] && chars[i] <= '9') {
            return false;
        }
        i = i + 1;
    }
    true
}

fn line_stamp(line: &str) -> (r: Option<String>)
    ensures
        match r {
            Some(t) => spec_line_stamp(line@) == Some(t@),
            None => spec_line_stamp(line@) is None,
        },
{
    let parsed = parse_line_ref(line);
    let date_seps: [(usize, char); 1] = [(2, '-')];
    let time_seps: [(usize, char); 3] = [(2, ':'), (5, ':'), (8, '.')];
    let date_ok = shaped(parsed.date, 5, date_seps.as_slice());
    let time_ok = shaped(parsed.time, 12, time_seps.as_slice());
    proof {
        let d = parsed.date@;
        let t = parsed.time@;
        let ds = date_seps@;
        let ts = time_seps@;
        if date_ok {
            assert(ds[0].0 == 2);
            assert forall|i: int| 0 <= i < 5 && i != 2 implies '0' <= #[trigger] d[i] <= '9' by {
                if exists|k: int| 0 <= k < ds.len() && ds[k].0 == i {
                    let k = choose|k: int| 0 <= k < ds.len() && ds[k].0 == i;
                    assert(k == 0);
                }
            }
        }
        if spec_date_shape(d) {
            assert(ds[0].0 == 2);
            assert forall|i: int| 0 <= i < 5 && !(exists|k: int| 0 <= k < ds.len() && ds[k].0 == i) implies '0' <= #[trigger] d[i] <= '9' by {
                if i == 2 {
                    assert(0 <= 0 < ds.len() && ds[0].0 == i);
                }
            }
        }
        if time_ok {
            assert(ts[0].0 == 2 && ts[1].0 == 5 && ts[2].0 == 8);
            assert forall|i: int| 0 <= i < 12 && i != 2 && i != 5 && i != 8 implies '0' <= #[trigger] t[i] <= '9' by {
                if exists|k: int| 0 <= k < ts.len() && ts[k].0 == i {
                    let k = choose|k: int| 0 <= k < ts.len() && ts[k].0 == i;
                    assert(k == 0 || k == 1 || k == 2);
                }
            }
        }
        if spec_time_shape(t) {
            assert(ts[0].0 == 2 && ts[1].0 == 5 && ts[2].0 == 8);
            assert forall|i: int| 0 <= i < 12 && !(exists|k: int| 0 <= k < ts.len() && ts[k].0 == i) implies '0' <= #[trigger] t[i] <= '9' by {
                if i == 2 {
                    assert(0 <= 0 < ts.len() && ts[0].0 == i);
                } else if i == 5 {
                    assert(0 <= 1 < ts.len() && ts[1].0 == i);
                } else if i == 8 {
                    assert(0 <= 2 < ts.len() && ts[2].0 == i);
                }
            }
        }
    }
    if date_ok && time_ok {
        Some(parsed.date.to_owned().concat(" ").concat(parsed.time))
    } else {
        None
    }
}

/// The stamp of the last line of `tail_text` that parses to a well-shaped date and time,
/// written `MM-DD HH:MM:SS.mmm`; it is what `logcat -T` resumes from.
pub fn last_log_timestamp(tail_text: &str) -> (r: Option<String>)
    ensures
        match spec_last_stamp(spec_segments(tail_text@), spec_segments(tail_text@).len() as int) {
            Some(t) => r matches Some(x) && x@ == t,
            None => r is None,
        },
{
    let lines = split_lines(tail_text);
    let ghost segs = lines@.map_values(|w: &str| w@);
    let mut n: usize = lines.len();
    while n > 0
        invariant
            0 <= n <= lines@.len(),
            segs == lines@.map_values(|w: &str| w@),
            segs == spec_segments(tail_text@),
            spec_last_stamp(segs, segs.len() as int) == spec_last_stamp(segs, n as int),
        decreases n,
    {
        proof {
            assert(segs[n - 1] == lines@[n - 1]@);
        }
        match line_stamp(lines[n - 1]) {
            Some(t) => return Some(t),
            None => {},
        }
        n = n - 1;
    }
    None
}


proof fn lemma_last_tagged_is_the_last(w: Seq<Seq<char>>, p: Seq<char>, n: int)
    requires
        n <= w.len(),
    ensures
        (forall|j: int| 2 <= j < n ==> !spec_char_prefix(#[trigger] w[j], p)) ==> spec_last_tagged(w, p, n) is None,
        forall|j: int| 2 <= j < n && spec_char_prefix(#[trigger] w[j], p) && (forall|k: int| j < k < n ==> !spec_char_prefix(
            #[trigger] w[k], p)) ==> spec_last_tagged(w, p, n) == Some(w[j].subrange(p.len() as int, w[j].len() as int)),
    decreases n,
{
    if n > 2 {
        lemma_last_tagged_is_the_last(w, p, n - 1);
        assert forall|j: int| 2 <= j < n && spec_char_prefix(#[trigger] w[j], p) && (forall|k: int| j < k < n ==> !spec_char_prefix(
            #[trigger] w[k], p)) implies spec_last_tagged(w, p, n) == Some(w[j].subrange(p.len() as int, w[j].len() as int)) by {
            if j < n - 1 {
                assert(!spec_char_prefix(w[n - 1], p));
            }
        }
    }
}

/// A device line reports, for each of `model:`, `product:` and `transport_id:`, the text after
/// the tag in the last word after the state that begins with it, and nothing where no word
/// does.
pub proof fn lemma_device_line_tags(line: Seq<char>)
    ensures
        spec_device_line(line) matches Some(d) ==> {
            let w = spec_words(spec_trim_chars(line));
            &&& forall|j: int| 2 <= j < w.len() && spec_char_prefix(#[trigger] w[j], "product:"@) && (forall|k: int| j < k < w.len()
                ==> !spec_char_prefix(#[trigger] w[k], "product:"@)) ==> d.product == Some(w[j].subrange("product:"@.len() as int, w[j].len() as int))
            &&& (forall|j: int| 2 <= j < w.len() ==> !spec_char_prefix(#[trigger] w[j], "product:"@)) ==> d.product is None
            &&& forall|j: int| 2 <= j < w.len() && spec_char_prefix(#[trigger] w[j], "model:"@) && (forall|k: int| j < k < w.len()
                ==> !spec_char_prefix(#[trigger] w[k], "model:"@)) ==> d.model == Some(w[j].subrange("model:"@.len() as int, w[j].len() as int))
            &&& (forall|j: int| 2 <= j < w.len() ==> !spec_char_prefix(#[trigger] w[j], "model:"@)) ==> d.model is None
            &&& forall|j: int| 2 <= j < w.len() && spec_char_prefix(#[trigger] w[j], "transport_id:"@) && (forall|k: int| j < k
                < w.len() ==> !spec_char_prefix(#[trigger] w[k], "transport_id:"@)) ==> d.transport_id == Some(w[j].subrange(
                "transport_id:"@.len() as int, w[j].len() as int))
            &&& (forall|j: int| 2 <= j < w.len() ==> !spec_char_prefix(#[trigger] w[j], "transport_id:"@)) ==> d.transport_id is None
            &&& d.serial == w[0]
        },
{
    let w = spec_words(spec_trim_chars(line));
    lemma_last_tagged_is_the_last(w, "product:"@, w.len() as int);
    lemma_last_tagged_is_the_last(w, "model:"@, w.len() as int);
    lemma_last_tagged_is_the_last(w, "transport_id:"@, w.len() as int);
}

} // verus!
