use vstd::prelude::*;
use vstd::string::*;
use regex::Regex;
use crate::chars::{find_char, find_from, lemma_find_bounds, lemma_rtrim_bounds, lemma_skip_ws_bounds, rtrim, rtrim_end,
    skip_ws, skip_ws_from, spec_ws, str_chars};
use crate::model::LogEntry;
use crate::parser::ParsedView;
use crate::problems::process_instance::spec_has_non_ws;
use crate::util::{contains_bytes, spec_contains, str_equal};

verus! {

pub const LEVEL_VERBOSE: u8 = 1;

pub const LEVEL_DEBUG: u8 = 2;

pub const LEVEL_INFO: u8 = 4;

pub const LEVEL_WARN: u8 = 8;

pub const LEVEL_ERROR: u8 = 16;

pub const LEVEL_FATAL: u8 = 32;

pub const LEVEL_ALL: u8 = 63;

/// The set of log levels a filter admits.
#[derive(Debug, Clone, Copy, PartialEq, Eq, Structural)]
pub struct LevelMask(u8);

/// The bit of a one-letter level, or zero for any other text.
pub open spec fn spec_level_bit(level: Seq<char>) -> u8 {
    if level == "V"@ {
        LEVEL_VERBOSE
    } else if level == "D"@ {
        LEVEL_DEBUG
    } else if level == "I"@ {
        LEVEL_INFO
    } else if level == "W"@ {
        LEVEL_WARN
    } else if level == "E"@ {
        LEVEL_ERROR
    } else if level == "F"@ {
        LEVEL_FATAL
    } else {
        0
    }
}

/// The bit of a level given by its letter or its full name, or zero.
pub open spec fn spec_level_name_bit(level: Seq<char>) -> u8 {
    if level == "VERBOSE"@ {
        LEVEL_VERBOSE
    } else if level == "DEBUG"@ {
        LEVEL_DEBUG
    } else if level == "INFO"@ {
        LEVEL_INFO
    } else if level == "WARN"@ {
        LEVEL_WARN
    } else if level == "ERROR"@ {
        LEVEL_ERROR
    } else if level == "FATAL"@ {
        LEVEL_FATAL
    } else {
        spec_level_bit(level)
    }
}

/// The union of the bits of the first `n` level names.
pub open spec fn spec_levels_bits(levels: Seq<&str>, n: int) -> u8
    decreases n,
{
    if n <= 0 {
        0
    } else {
        spec_levels_bits(levels, n - 1) | spec_level_name_bit(levels[n - 1]@)
    }
}

/// Whether a mask admits an entry of `level`: every level when all are selected (raw lines
/// without a level too), otherwise only the selected one-letter levels.
pub open spec fn spec_levels_admit(mask: LevelMask, level: Seq<char>) -> bool {
    mask.spec_bits() == LEVEL_ALL || (spec_level_bit(level) != 0 && mask.spec_bits() & spec_level_bit(level) != 0)
}

fn level_bit(level: &str) -> (r: u8)
    ensures
        r == spec_level_bit(level@),
{
    proof {
        reveal_strlit("V");
        reveal_strlit("D");
        reveal_strlit("I");
        reveal_strlit("W");
        reveal_strlit("E");
        reveal_strlit("F");
    }
    if str_equal(level, "V") {
        LEVEL_VERBOSE
    } else if str_equal(level, "D") {
        LEVEL_DEBUG
    } else if str_equal(level, "I") {
        LEVEL_INFO
    } else if str_equal(level, "W") {
        LEVEL_WARN
    } else if str_equal(level, "E") {
        LEVEL_ERROR
    } else if str_equal(level, "F") {
        LEVEL_FATAL
    } else {
        0
    }
}

fn level_name_bit(level: &str) -> (r: u8)
    ensures
        r == spec_level_name_bit(level@),
{
    if str_equal(level, "VERBOSE") {
        LEVEL_VERBOSE
    } else if str_equal(level, "DEBUG") {
        LEVEL_DEBUG
    } else if str_equal(level, "INFO") {
        LEVEL_INFO
    } else if str_equal(level, "WARN") {
        LEVEL_WARN
    } else if str_equal(level, "ERROR") {
        LEVEL_ERROR
    } else if str_equal(level, "FATAL") {
        LEVEL_FATAL
    } else {
        level_bit(level)
    }
}

impl LevelMask {
    pub closed spec fn spec_bits(self) -> u8 {
        self.0
    }

    pub fn all() -> (r: Self)
        ensures
            r.spec_bits() == LEVEL_ALL,
    {
        LevelMask(LEVEL_ALL)
    }

    pub fn bits(self) -> (r: u8)
        ensures
            r == self.spec_bits(),
    {
        self.0
    }

    /// The mask of the level bits among `bits`.
    pub fn from_bits(bits: u8) -> (r: Self)
        ensures
            r.spec_bits() == bits & LEVEL_ALL,
    {
        LevelMask(bits & LEVEL_ALL)
    }

    /// The mask of the levels named (by letter or full name); other names add nothing.
    pub fn from_levels(levels: &[&str]) -> (r: Self)
        ensures
            r.spec_bits() == spec_levels_bits(levels@, levels@.len() as int) & LEVEL_ALL,
    {
        let mut bits: u8 = 0;
        let mut i: usize = 0;
        while i < levels.len()
            invariant
                0 <= i <= levels@.len(),
                bits == spec_levels_bits(levels@, i as int),
            decreases levels@.len() - i,
        {
            bits = bits | level_name_bit(levels[i]);
            i = i + 1;
        }
        LevelMask::from_bits(bits)
    }

    fn is_all(self) -> (r: bool)
        ensures
            r == (self.spec_bits() == LEVEL_ALL),
    {
        self.0 == LEVEL_ALL
    }

    fn admits(self, level: &str) -> (r: bool)
        ensures
            r == spec_levels_admit(self, level@),
    {
        if self.is_all() {
            return true;
        }
        let bit = level_bit(level);
        bit != 0 && (self.0 & bit) != 0
    }
}

impl Default for LevelMask {
    fn default() -> (r: Self)
        ensures
            r.spec_bits() == LEVEL_ALL,
    {
        LevelMask::all()
    }
}

/// One text field of a filter: its `|`-separated values, plain text or regular expressions.
#[derive(Debug, Clone, PartialEq, Eq)]
pub struct FilterField {
    pub enabled: bool,
    pub pattern: String,
    pub regex: bool,
}

impl Default for FilterField {
    fn default() -> (r: Self)
        ensures
            !r.enabled && r.pattern@.len() == 0 && !r.regex,
    {
        FilterField { enabled: false, pattern: String::new(), regex: false }
    }
}

impl FilterField {
    pub fn plain(enabled: bool, pattern: &str) -> (r: Self)
        ensures
            r.enabled == enabled && r.pattern@ == pattern@ && !r.regex,
    {
        FilterField { enabled, pattern: pattern.to_owned(), regex: false }
    }

    pub fn regex(enabled: bool, pattern: &str) -> (r: Self)
        ensures
            r.enabled == enabled && r.pattern@ == pattern@ && r.regex,
    {
        FilterField { enabled, pattern: pattern.to_owned(), regex: true }
    }

    /// Enabled, with some non-whitespace text.
    pub fn is_active(&self) -> (r: bool)
        ensures
            r == (self.enabled && spec_has_non_ws(self.pattern@)),
    {
        if !self.enabled {
            return false;
        }
        let chars = str_chars(self.pattern.as_str());
        let lo = skip_ws(&chars, 0);
        proof {
            lemma_skip_ws_bounds(chars@, 0);
            if lo < chars@.len() {
                assert(!spec_ws(chars@[lo as int]));
            } else {
                assert forall|i: int| 0 <= i < chars@.len() implies spec_ws(#[trigger] chars@[i]) by {}
            }
        }
        lo < chars.len()
    }
}

#[derive(Debug, Clone, PartialEq, Eq)]
pub struct FilterSpec {
    pub levels: LevelMask,
    pub pid: FilterField,
    pub tid: FilterField,
    pub tag_include: FilterField,
    pub tag_exclude: FilterField,
    pub word_include: FilterField,
    pub word_exclude: FilterField,
}

impl Default for FilterSpec {
    fn default() -> (r: Self)
        ensures
            r.levels.spec_bits() == LEVEL_ALL,
            !r.pid.enabled && !r.tid.enabled && !r.tag_include.enabled && !r.tag_exclude.enabled
                && !r.word_include.enabled && !r.word_exclude.enabled,
    {
        FilterSpec {
            levels: LevelMask::all(),
            pid: FilterField::default(),
            tid: FilterField::default(),
            tag_include: FilterField::default(),
            tag_exclude: FilterField::default(),
            word_include: FilterField::default(),
            word_exclude: FilterField::default(),
        }
    }
}

/// The filter narrows the view: some level is deselected or some field is active.
pub open spec fn spec_filter_active(spec: FilterSpec) -> bool {
    ||| spec.levels.spec_bits() != LEVEL_ALL
    ||| spec.pid.enabled && spec_has_non_ws(spec.pid.pattern@)
    ||| spec.tid.enabled && spec_has_non_ws(spec.tid.pattern@)
    ||| spec.tag_include.enabled && spec_has_non_ws(spec.tag_include.pattern@)
    ||| spec.tag_exclude.enabled && spec_has_non_ws(spec.tag_exclude.pattern@)
    ||| spec.word_include.enabled && spec_has_non_ws(spec.word_include.pattern@)
    ||| spec.word_exclude.enabled && spec_has_non_ws(spec.word_exclude.pattern@)
}

impl FilterSpec {
    pub fn is_active(&self) -> (r: bool)
        ensures
            r == spec_filter_active(*self),
    {
        !self.levels.is_all() || self.pid.is_active() || self.tid.is_active() || self.tag_include.is_active()
            || self.tag_exclude.is_active() || self.word_include.is_active() || self.word_exclude.is_active()
    }
}

#[derive(Debug, Clone, PartialEq, Eq)]
pub struct FilterError {
    pub message: String,
}

/// The values of `s` from position `i` on: the `|`-separated parts, trimmed of Unicode
/// whitespace, empty ones left out.
pub open spec fn spec_values_from(s: Seq<char>, i: int) -> Seq<Seq<char>>
    decreases s.len() - i,
{
    if i < 0 || i > s.len() {
        Seq::empty()
    } else {
        proof {
            lemma_find_bounds(s, '|', i);
        }
        let j = find_from(s, '|', i);
        let lo = skip_ws_from(s, i);
        let lo2 = if lo < j { lo } else { j };
        let hi = rtrim_end(s, lo2, j);
        let head = if lo2 < hi { seq![s.subrange(lo2, hi)] } else { Seq::empty() };
        if j >= s.len() {
            head
        } else {
            head + spec_values_from(s, j + 1)
        }
    }
}

/// The values of a pattern.
pub open spec fn spec_split_values(pattern: Seq<char>) -> Seq<Seq<char>> {
    spec_values_from(pattern, 0)
}

/// The `|`-separated, trimmed, non-empty values of `pattern`.
pub fn split_values(pattern: &str) -> (r: Vec<String>)
    ensures
        r@.map_values(|v: String| v@) == spec_split_values(pattern@),
{
    let chars = str_chars(pattern);
    let mut out: Vec<String> = Vec::new();
    let mut i: usize = 0;
    loop
        invariant
            0 <= i <= chars@.len(),
            chars@ == pattern@,
            out@.map_values(|v: String| v@) + spec_values_from(chars@, i as int) == spec_values_from(chars@, 0),
        decreases chars@.len() - i,
    {
        let ghost before = out@.map_values(|v: String| v@);
        let j = find_char(&chars, '|', i);
        let lo = skip_ws(&chars, i);
        let lo2 = if lo < j { lo } else { j };
        proof {
            lemma_rtrim_bounds(chars@, lo2 as int, j as int);
        }
        let hi = rtrim(&chars, lo2, j);
        if lo2 < hi {
            let part = pattern.substring_char(lo2, hi);
            out.push(part.to_owned());
        }
        proof {
            let head = if lo2 < hi { seq![chars@.subrange(lo2 as int, hi as int)] } else { Seq::<Seq<char>>::empty() };
            assert(out@.map_values(|v: String| v@) =~= before + head);
            if j < chars@.len() {
                assert(spec_values_from(chars@, i as int) == head + spec_values_from(chars@, j + 1));
                assert(before + head + spec_values_from(chars@, j + 1) =~= before + (head + spec_values_from(chars@, j + 1)));
            } else {
                assert(spec_values_from(chars@, i as int) == head);
            }
        }
        if j >= chars.len() {
            proof {
                assert(out@.map_values(|v: String| v@) =~= spec_values_from(chars@, 0));
            }
            return out;
        }
        i = j + 1;
    }
}

#[verifier::external_type_specification]
#[verifier::external_body]
pub struct ExRegex(regex::Regex);

/// Whether `regex::Regex::new` accepts `pattern`.
pub uninterp spec fn regex_compiles(pattern: Seq<char>) -> bool;

/// Whether the expression `regex::Regex::new` compiles from `pattern` matches somewhere in
/// `text`.
pub uninterp spec fn regex_matches(pattern: Seq<char>, text: Seq<char>) -> bool;

/// A compiled regular expression together with the pattern it was compiled from.
struct CompiledRegex {
    regex: Regex,
    pattern: String,
}

/// Compiles `pattern` with `regex::Regex::new`, keeping the pattern beside it; it succeeds
/// exactly when the pattern is one the crate accepts, and otherwise gives the error's
/// message.
#[verifier::external_body]
fn regex_new(pattern: &str) -> (r: Result<CompiledRegex, String>)
    ensures
        r is Ok <==> regex_compiles(pattern@),
        r matches Ok(c) ==> c.pattern@ == pattern@,
{
    match Regex::new(pattern) {
        Ok(regex) => Ok(CompiledRegex { regex, pattern: pattern.to_string() }),
        Err(e) => Err(e.to_string()),
    }
}

/// `regex::Regex::is_match`: claimed to give `regex_matches` of the pattern the expression
/// was compiled from and the text.
#[verifier::external_body]
fn regex_is_match(re: &CompiledRegex, text: &str) -> (r: bool)
    ensures
        r == regex_matches(re.pattern@, text@),
{
    re.regex.is_match(text)
}

enum Matcher {
    Plain(String),
    Regex(CompiledRegex),
}

/// The value a matcher was built from: the plain text, or the expression's pattern.
spec fn spec_matcher_value(m: Matcher) -> Seq<char> {
    match m {
        Matcher::Plain(s) => s@,
        Matcher::Regex(c) => c.pattern@,
    }
}

/// `text` holds `part` (as UTF-8 bytes, which for text is the same as holding its chars).
pub open spec fn spec_text_contains(text: Seq<char>, part: Seq<char>) -> bool {
    spec_contains(vstd::utf8::encode_utf8(text), vstd::utf8::encode_utf8(part))
}

/// A value of a substring field hits `text`: it occurs in it, or, as a regular expression,
/// matches somewhere in it.
pub open spec fn spec_contains_hit(regex: bool, value: Seq<char>, text: Seq<char>) -> bool {
    if regex { regex_matches(value, text) } else { spec_text_contains(text, value) }
}

/// A value of an exact field hits `text`: it equals it, or, as a regular expression,
/// matches somewhere in it.
pub open spec fn spec_equals_hit(regex: bool, value: Seq<char>, text: Seq<char>) -> bool {
    if regex { regex_matches(value, text) } else { text == value }
}

struct CompiledField {
    enabled: bool,
    regex: Ghost<bool>,
    matchers: Vec<Matcher>,
}

impl CompiledField {
    /// The values the field's matchers were built from.
    spec fn spec_values(self) -> Seq<Seq<char>> {
        self.matchers@.map_values(|m: Matcher| spec_matcher_value(m))
    }

    /// `field` compiled to this.
    spec fn spec_compiled_from(self, field: FilterField) -> bool {
        &&& self.enabled == field.enabled
        &&& self.regex@ == field.regex
        &&& self.spec_values() == spec_field_values(field)
        &&& forall|k: int| 0 <= k < self.matchers@.len() ==> ((#[trigger] self.matchers@[k]) is Regex <==> field.regex)
    }

    fn compile(field: &FilterField) -> (r: Result<Self, FilterError>)
        ensures
            match r {
                Ok(c) => c.spec_compiled_from(*field),
                Err(_) => field.enabled && field.regex && exists|k: int| 0 <= k < spec_split_values(field.pattern@).len()
                    && !regex_compiles(#[trigger] spec_split_values(field.pattern@)[k]),
            },
            field.enabled && field.regex && (forall|k: int| 0 <= k < spec_split_values(field.pattern@).len()
                ==> regex_compiles(#[trigger] spec_split_values(field.pattern@)[k])) ==> r is Ok,
            !field.enabled || !field.regex ==> r is Ok,
    {
        let mut matchers: Vec<Matcher> = Vec::new();
        if field.enabled {
            let parts = split_values(field.pattern.as_str());
            let ghost values = parts@.map_values(|v: String| v@);
            let mut k: usize = 0;
            while k < parts.len()
                invariant
                    0 <= k <= parts@.len(),
                    values == spec_split_values(field.pattern@),
                    values == parts@.map_values(|v: String| v@),
                    field.enabled,
                    matchers@.len() == k,
                    forall|j: int| 0 <= j < k ==> ((#[trigger] matchers@[j]) is Regex <==> field.regex)
                        && spec_matcher_value(matchers@[j]) == values[j],
                    field.regex ==> forall|j: int| 0 <= j < k ==> regex_compiles(#[trigger] values[j]),
                decreases parts@.len() - k,
            {
                let part = &parts[k];
                if field.regex {
                    match regex_new(part.as_str()) {
                        Ok(re) => matchers.push(Matcher::Regex(re)),
                        Err(message) => {
                            proof {
                                assert(values[k as int] == part@);
                            }
                            return Err(FilterError { message });
                        },
                    }
                } else {
                    matchers.push(Matcher::Plain(part.clone()));
                }
                proof {
                    assert(values[k as int] == part@);
                }
                k = k + 1;
            }
            let r = CompiledField { enabled: field.enabled, regex: Ghost(field.regex), matchers };
            proof {
                assert(r.spec_values() =~= spec_field_values(*field));
            }
            return Ok(r);
        }
        let r = CompiledField { enabled: field.enabled, regex: Ghost(field.regex), matchers };
        proof {
            assert(r.spec_values() =~= spec_field_values(*field));
        }
        Ok(r)
    }

    fn is_noop(&self) -> (r: bool)
        ensures
            r == (!self.enabled || self.matchers@.len() == 0),
    {
        !self.enabled || self.matchers.len() == 0
    }

    /// Some value occurs in `text` (plain) or matches it (regex).
    fn contains_any(&self, text: &str) -> (r: bool)
        requires
            forall|k: int| 0 <= k < self.matchers@.len() ==> ((#[trigger] self.matchers@[k]) is Regex <==> self.regex@),
        ensures
            r == exists|k: int| 0 <= k < self.matchers@.len() && spec_contains_hit(self.regex@, #[trigger] self.spec_values()[k], text@),
    {
        let mut k: usize = 0;
        while k < self.matchers.len()
            invariant
                0 <= k <= self.matchers@.len(),
                forall|j: int| 0 <= j < self.matchers@.len() ==> ((#[trigger] self.matchers@[j]) is Regex <==> self.regex@),
                forall|j: int| 0 <= j < k ==> !spec_contains_hit(self.regex@, #[trigger] self.spec_values()[j], text@),
            decreases self.matchers@.len() - k,
        {
            let hit = match &self.matchers[k] {
                Matcher::Plain(part) => contains_bytes(text.as_bytes(), part.as_str().as_bytes()),
                Matcher::Regex(re) => regex_is_match(re, text),
            };
            proof {
                assert(self.spec_values()[k as int] == spec_matcher_value(self.matchers@[k as int]));
            }
            if hit {
                return true;
            }
            k = k + 1;
        }
        false
    }

    /// Some value equals `text` (plain) or matches it (regex).
    fn equals_any(&self, text: &str) -> (r: bool)
        requires
            forall|k: int| 0 <= k < self.matchers@.len() ==> ((#[trigger] self.matchers@[k]) is Regex <==> self.regex@),
        ensures
            r == exists|k: int| 0 <= k < self.matchers@.len() && spec_equals_hit(self.regex@, #[trigger] self.spec_values()[k], text@),
    {
        let mut k: usize = 0;
        while k < self.matchers.len()
            invariant
                0 <= k <= self.matchers@.len(),
                forall|j: int| 0 <= j < self.matchers@.len() ==> ((#[trigger] self.matchers@[j]) is Regex <==> self.regex@),
                forall|j: int| 0 <= j < k ==> !spec_equals_hit(self.regex@, #[trigger] self.spec_values()[j], text@),
            decreases self.matchers@.len() - k,
        {
            let hit = match &self.matchers[k] {
                Matcher::Plain(part) => str_equal(text, part.as_str()),
                Matcher::Regex(re) => regex_is_match(re, text),
            };
            proof {
                assert(self.spec_values()[k as int] == spec_matcher_value(self.matchers@[k as int]));
            }
            if hit {
                return true;
            }
            k = k + 1;
        }
        false
    }
}

/// The values a field holds (none when it is disabled).
pub open spec fn spec_field_values(f: FilterField) -> Seq<Seq<char>> {
    if f.enabled { spec_split_values(f.pattern@) } else { Seq::empty() }
}

/// An inclusive substring field admits `text`: it has no values, or one hits it.
pub open spec fn spec_include_contains(f: FilterField, text: Seq<char>) -> bool {
    let v = spec_field_values(f);
    v.len() == 0 || exists|k: int| 0 <= k < v.len() && spec_contains_hit(f.regex, #[trigger] v[k], text)
}

/// An inclusive exact field admits `text`: it has no values, or one hits it.
pub open spec fn spec_include_exact(f: FilterField, text: Seq<char>) -> bool {
    let v = spec_field_values(f);
    v.len() == 0 || exists|k: int| 0 <= k < v.len() && spec_equals_hit(f.regex, #[trigger] v[k], text)
}

/// An exclusive substring field rejects `text`: one of its values hits it.
pub open spec fn spec_exclude_contains(f: FilterField, text: Seq<char>) -> bool {
    let v = spec_field_values(f);
    v.len() > 0 && exists|k: int| 0 <= k < v.len() && spec_contains_hit(f.regex, #[trigger] v[k], text)
}

/// The filter keeps the entry `e`: its level is admitted, its pid and tid are hit by a value
/// of their fields (when those have values), its tag by an included value and by no excluded
/// one, and so its message.
pub open spec fn spec_entry_matches(spec: FilterSpec, e: ParsedView) -> bool {
    &&& spec_levels_admit(spec.levels, e.level)
    &&& spec_include_exact(spec.pid, e.pid)
    &&& spec_include_exact(spec.tid, e.tid)
    &&& spec_include_contains(spec.tag_include, e.tag)
    &&& !spec_exclude_contains(spec.tag_exclude, e.tag)
    &&& spec_include_contains(spec.word_include, e.message)
    &&& !spec_exclude_contains(spec.word_exclude, e.message)
}

/// Every regular expression of the enabled regex fields compiles.
pub open spec fn spec_field_compiles(f: FilterField) -> bool {
    f.enabled && f.regex ==> forall|k: int| 0 <= k < spec_split_values(f.pattern@).len()
        ==> regex_compiles(#[trigger] spec_split_values(f.pattern@)[k])
}

pub open spec fn spec_filter_compiles(spec: FilterSpec) -> bool {
    &&& spec_field_compiles(spec.pid)
    &&& spec_field_compiles(spec.tid)
    &&& spec_field_compiles(spec.tag_include)
    &&& spec_field_compiles(spec.tag_exclude)
    &&& spec_field_compiles(spec.word_include)
    &&& spec_field_compiles(spec.word_exclude)
}

/// A compiled filter.
pub struct FilterMatcher {
    levels: LevelMask,
    spec: Ghost<FilterSpec>,
    pid: CompiledField,
    tid: CompiledField,
    tag_include: CompiledField,
    tag_exclude: CompiledField,
    word_include: CompiledField,
    word_exclude: CompiledField,
}

impl FilterMatcher {
    pub closed spec fn spec_filter(self) -> FilterSpec {
        self.spec@
    }

    pub closed spec fn wf(self) -> bool {
        &&& self.levels == self.spec@.levels
        &&& self.pid.spec_compiled_from(self.spec@.pid)
        &&& self.tid.spec_compiled_from(self.spec@.tid)
        &&& self.tag_include.spec_compiled_from(self.spec@.tag_include)
        &&& self.tag_exclude.spec_compiled_from(self.spec@.tag_exclude)
        &&& self.word_include.spec_compiled_from(self.spec@.word_include)
        &&& self.word_exclude.spec_compiled_from(self.spec@.word_exclude)
    }

    /// Compiles a filter; it fails only on a regular expression the regex crate refuses.
    pub fn new(spec: &FilterSpec) -> (r: Result<Self, FilterError>)
        ensures
            spec_filter_compiles(*spec) ==> r is Ok,
            r matches Ok(m) ==> m.wf() && m.spec_filter() == *spec,
            r is Err ==> !spec_filter_compiles(*spec),
    {
        let pid = match CompiledField::compile(&spec.pid) {
            Ok(c) => c,
            Err(e) => return Err(e),
        };
        let tid = match CompiledField::compile(&spec.tid) {
            Ok(c) => c,
            Err(e) => return Err(e),
        };
        let tag_include = match CompiledField::compile(&spec.tag_include) {
            Ok(c) => c,
            Err(e) => return Err(e),
        };
        let tag_exclude = match CompiledField::compile(&spec.tag_exclude) {
            Ok(c) => c,
            Err(e) => return Err(e),
        };
        let word_include = match CompiledField::compile(&spec.word_include) {
            Ok(c) => c,
            Err(e) => return Err(e),
        };
        let word_exclude = match CompiledField::compile(&spec.word_exclude) {
            Ok(c) => c,
            Err(e) => return Err(e),
        };
        Ok(FilterMatcher {
            levels: spec.levels,
            spec: Ghost(*spec),
            pid,
            tid,
            tag_include,
            tag_exclude,
            word_include,
            word_exclude,
        })
    }

    /// Whether the filter keeps `entry`: exactly when `spec_entry_matches` holds.
    pub fn is_match(&self, entry: &LogEntry) -> (r: bool)
        requires
            self.wf(),
        ensures
            r == spec_entry_matches(self.spec_filter(), entry@),
    {
        if !self.levels.admits(entry.level.as_str()) {
            return false;
        }
        if !(self.pid.is_noop() || self.pid.equals_any(entry.pid.as_str())) {
            return false;
        }
        if !(self.tid.is_noop() || self.tid.equals_any(entry.tid.as_str())) {
            return false;
        }
        if !(self.tag_include.is_noop() || self.tag_include.contains_any(entry.tag.as_str())) {
            return false;
        }
        if !self.tag_exclude.is_noop() && self.tag_exclude.contains_any(entry.tag.as_str()) {
            return false;
        }
        if !(self.word_include.is_noop() || self.word_include.contains_any(entry.message.as_str())) {
            return false;
        }
        if !self.word_exclude.is_noop() && self.word_exclude.contains_any(entry.message.as_str()) {
            return false;
        }
        true
    }
}

/// The positions of the entries a filter keeps, in order.
pub open spec fn spec_kept(spec: FilterSpec, entries: Seq<LogEntry>, n: int) -> Seq<u64>
    decreases n,
{
    if n <= 0 {
        Seq::empty()
    } else if spec_entry_matches(spec, entries[n - 1]@) {
        spec_kept(spec, entries, n - 1).push((n - 1) as u64)
    } else {
        spec_kept(spec, entries, n - 1)
    }
}

/// The positions of the entries `spec` keeps.
pub fn filter_entries(entries: &[LogEntry], spec: &FilterSpec) -> (r: Result<Vec<u64>, FilterError>)
    ensures
        spec_filter_compiles(*spec) ==> r is Ok,
        r is Err ==> !spec_filter_compiles(*spec),
        r matches Ok(v) ==> v@ == spec_kept(*spec, entries@, entries@.len() as int),
{
    let matcher = match FilterMatcher::new(spec) {
        Ok(m) => m,
        Err(e) => return Err(e),
    };
    let mut out: Vec<u64> = Vec::new();
    let mut i: usize = 0;
    while i < entries.len()
        invariant
            0 <= i <= entries@.len(),
            matcher.wf(),
            matcher.spec_filter() == *spec,
            out@ == spec_kept(*spec, entries@, i as int),
        decreases entries@.len() - i,
    {
        if matcher.is_match(&entries[i]) {
            out.push(i as u64);
        }
        i = i + 1;
    }
    Ok(out)
}

proof fn lemma_blank_has_no_values(s: Seq<char>, i: int)
    requires
        0 <= i <= s.len(),
        forall|k: int| 0 <= k < s.len() ==> spec_ws(#[trigger] s[k]),
    ensures
        spec_values_from(s, i).len() == 0,
{
    lemma_blank_scan(s, i);
    let j = find_from(s, '|', i);
    assert(j == s.len());
    assert(skip_ws_from(s, i) == s.len());
    lemma_rtrim_bounds(s, j, j);
}

proof fn lemma_blank_scan(s: Seq<char>, i: int)
    requires
        0 <= i <= s.len(),
        forall|k: int| 0 <= k < s.len() ==> spec_ws(#[trigger] s[k]),
    ensures
        find_from(s, '|', i) == s.len(),
        skip_ws_from(s, i) == s.len(),
    decreases s.len() - i,
{
    if i < s.len() {
        assert(spec_ws(s[i]));
        assert(s[i] != '|');
        lemma_blank_scan(s, i + 1);
    }
}

proof fn lemma_inactive_field_has_no_values(f: FilterField)
    requires
        !(f.enabled && spec_has_non_ws(f.pattern@)),
    ensures
        spec_field_values(f).len() == 0,
{
    if f.enabled {
        assert forall|k: int| 0 <= k < f.pattern@.len() implies spec_ws(#[trigger] f.pattern@[k]) by {}
        lemma_blank_has_no_values(f.pattern@, 0);
    }
}

/// A filter that narrows nothing (all levels, no active field) keeps every entry, in order.
pub proof fn lemma_inactive_filter_keeps_all(spec: FilterSpec, entries: Seq<LogEntry>, n: int)
    requires
        !spec_filter_active(spec),
        0 <= n <= entries.len(),
        n <= u64::MAX,
    ensures
        spec_kept(spec, entries, n) == Seq::new(n as nat, |i: int| i as u64),
    decreases n,
{
    lemma_inactive_field_has_no_values(spec.pid);
    lemma_inactive_field_has_no_values(spec.tid);
    lemma_inactive_field_has_no_values(spec.tag_include);
    lemma_inactive_field_has_no_values(spec.tag_exclude);
    lemma_inactive_field_has_no_values(spec.word_include);
    lemma_inactive_field_has_no_values(spec.word_exclude);
    if n > 0 {
        lemma_inactive_filter_keeps_all(spec, entries, n - 1);
        assert(spec_entry_matches(spec, entries[n - 1]@));
        assert(spec_kept(spec, entries, n) =~= Seq::new(n as nat, |i: int| i as u64));
    } else {
        assert(spec_kept(spec, entries, n) =~= Seq::new(n as nat, |i: int| i as u64));
    }
}


proof fn lemma_kept_below(spec: FilterSpec, entries: Seq<LogEntry>, n: int)
    requires
        0 <= n <= entries.len(),
        entries.len() <= u64::MAX,
    ensures
        forall|x: int| 0 <= x < spec_kept(spec, entries, n).len() ==> (#[trigger] spec_kept(spec, entries, n)[x]) < n,
    decreases n,
{
    if n > 0 {
        lemma_kept_below(spec, entries, n - 1);
        let prev = spec_kept(spec, entries, n - 1);
        let cur = spec_kept(spec, entries, n);
        assert forall|x: int| 0 <= x < cur.len() implies (#[trigger] cur[x]) < n by {
            if spec_entry_matches(spec, entries[n - 1]@) {
                if x < prev.len() {
                    assert(cur[x] == prev[x]);
                } else {
                    assert(cur[x] == (n - 1) as u64);
                }
            } else {
                assert(cur[x] == prev[x]);
            }
        }
    }
}

/// A position the filter keeps is one of an entry it matches.
proof fn lemma_kept_matches(spec: FilterSpec, entries: Seq<LogEntry>, n: int, i: int)
    requires
        0 <= i < n <= entries.len(),
        entries.len() <= u64::MAX,
        spec_kept(spec, entries, n).contains(i as u64),
    ensures
        spec_entry_matches(spec, entries[i]@),
    decreases n,
{
    let prev = spec_kept(spec, entries, n - 1);
    let cur = spec_kept(spec, entries, n);
    lemma_kept_below(spec, entries, n - 1);
    let w = choose|w: int| 0 <= w < cur.len() && cur[w] == i as u64;
    if i == n - 1 {
        if !spec_entry_matches(spec, entries[n - 1]@) {
            assert(cur == prev);
            assert(prev[w] < n - 1);
        }
    } else if spec_entry_matches(spec, entries[n - 1]@) {
        if w < prev.len() {
            assert(prev[w] == i as u64);
            lemma_kept_matches(spec, entries, n - 1, i);
        } else {
            assert(cur[w] == (n - 1) as u64);
        }
    } else {
        lemma_kept_matches(spec, entries, n - 1, i);
    }
}

/// An entry whose tag is hit by a value of an enabled tag exclusion (it holds the value, or,
/// for a regular expression, is matched by it) is never kept, whatever its message.
pub proof fn lemma_tag_exclusion_drops_the_entry(spec: FilterSpec, entries: Seq<LogEntry>, i: int, k: int)
    requires
        0 <= i < entries.len(),
        entries.len() <= u64::MAX,
        spec.tag_exclude.enabled,
        0 <= k < spec_split_values(spec.tag_exclude.pattern@).len(),
        if spec.tag_exclude.regex {
            regex_matches(spec_split_values(spec.tag_exclude.pattern@)[k], entries[i]@.tag)
        } else {
            spec_text_contains(entries[i]@.tag, spec_split_values(spec.tag_exclude.pattern@)[k])
        },
    ensures
        !spec_kept(spec, entries, entries.len() as int).contains(i as u64),
{
    if spec_kept(spec, entries, entries.len() as int).contains(i as u64) {
        lemma_kept_matches(spec, entries, entries.len() as int, i);
        let v = spec_field_values(spec.tag_exclude);
        assert(spec_contains_hit(spec.tag_exclude.regex, v[k], entries[i]@.tag));
    }
}

/// Where no word filter is enabled, whether an entry is kept does not depend on its message:
/// two entries alike but for their messages are kept alike.
pub proof fn lemma_keep_ignores_the_message(spec: FilterSpec, a: ParsedView, b: ParsedView)
    requires
        !spec.word_include.enabled,
        !spec.word_exclude.enabled,
        a.level == b.level,
        a.pid == b.pid,
        a.tid == b.tid,
        a.tag == b.tag,
    ensures
        spec_entry_matches(spec, a) == spec_entry_matches(spec, b),
{
}


/// Each field of the filter reads only its own part of the entry: two entries that agree on
/// their level and on every part an enabled field reads (pid, tid, tag for the tag fields,
/// message for the word fields) are kept alike.
pub proof fn lemma_fields_read_their_own_part(spec: FilterSpec, a: ParsedView, b: ParsedView)
    requires
        a.level == b.level,
        spec.pid.enabled ==> a.pid == b.pid,
        spec.tid.enabled ==> a.tid == b.tid,
        spec.tag_include.enabled || spec.tag_exclude.enabled ==> a.tag == b.tag,
        spec.word_include.enabled || spec.word_exclude.enabled ==> a.message == b.message,
    ensures
        spec_entry_matches(spec, a) == spec_entry_matches(spec, b),
{
}

} // verus!
