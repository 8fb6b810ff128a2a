use vstd::prelude::*;
use crate::bytes_tok::{
    bfind, bfind_from, brtrim, brtrim_end, bskip_word, bskip_word_from, btoken, btoken_start,
    has_btoken, lemma_bfind_bounds, lemma_btoken_bounds, next_btoken,
};
use crate::util::{all_digits, spec_all_digits};
use crate::chars::{
    find_char, find_from, has_token, lemma_find_bounds, lemma_rtrim_bounds, lemma_skip_char_bounds,
    lemma_skip_ws_bounds, lemma_token_start_bounds, next_token, rtrim, rtrim_end, skip_char,
    skip_char_from, skip_word, skip_word_from, skip_ws, skip_ws_from, spec_ws, str_chars, token,
    token_end, token_start,
};

verus! {

/// The abstract value of a parsed line: the character sequences of its seven fields.
#[verifier::ext_equal]
pub struct ParsedView {
    pub date: Seq<char>,
    pub time: Seq<char>,
    pub level: Seq<char>,
    pub pid: Seq<char>,
    pub tid: Seq<char>,
    pub tag: Seq<char>,
    pub message: Seq<char>,
}

/// 借用式解析结果:七个字段全为源文本切片,过滤/搜索热路径零堆分配。
#[derive(Debug, Clone, Copy, PartialEq, Eq, Default)]
pub struct ParsedLine<'a> {
    pub date: &'a str,
    pub time: &'a str,
    pub level: &'a str,
    pub pid: &'a str,
    pub tid: &'a str,
    pub tag: &'a str,
    pub message: &'a str,
}

impl<'a> View for ParsedLine<'a> {
    type V = ParsedView;

    open spec fn view(&self) -> ParsedView {
        ParsedView {
            date: self.date@,
            time: self.time@,
            level: self.level@,
            pid: self.pid@,
            tid: self.tid@,
            tag: self.tag@,
            message: self.message@,
        }
    }
}

/// Whether every character is an ASCII digit.
pub open spec fn all_digit_chars(s: Seq<char>) -> bool {
    forall|i: int| 0 <= i < s.len() ==> '0' <= #[trigger] s[i] <= '9'
}

/// The logcat level letters.
pub open spec fn is_level_char(c: char) -> bool {
    c == 'V' || c == 'D' || c == 'I' || c == 'W' || c == 'E' || c == 'F'
}

/// The `threadtime` format: `MM-DD HH:MM:SS.mmm  PID  TID L Tag: message`.
pub open spec fn spec_parse_threadtime(s: Seq<char>) -> Option<ParsedView> {
    if !has_token(s, 4) {
        None
    } else if !all_digit_chars(token(s, 2)) || !all_digit_chars(token(s, 3)) {
        None
    } else if !(token(s, 4).len() == 1 && is_level_char(token(s, 4)[0])) {
        None
    } else if !has_token(s, 5) {
        None
    } else {
        let t = token_start(s, 5);
        let colon = find_from(s, ':', t);
        let ws = skip_word_from(s, t);
        let (tag, message) = if colon < s.len() {
            (
                s.subrange(t, rtrim_end(s, t, colon)),
                s.subrange(skip_ws_from(s, colon + 1), s.len() as int),
            )
        } else if ws < s.len() {
            (s.subrange(t, ws), s.subrange(skip_ws_from(s, ws), s.len() as int))
        } else {
            (s.subrange(t, s.len() as int), Seq::<char>::empty())
        };
        Some(
            ParsedView {
                date: token(s, 0),
                time: token(s, 1),
                level: token(s, 4),
                pid: token(s, 2),
                tid: token(s, 3),
                tag,
                message,
            },
        )
    }
}

/// The `time` format: `MM-DD HH:MM:SS.mmm L/Tag(  pid): message`.
pub open spec fn spec_parse_time(s: Seq<char>) -> Option<ParsedView> {
    let t = token_start(s, 2);
    if !has_token(s, 1) || !has_token(s, 2) {
        None
    } else if !is_level_char(s[t]) || !(t + 1 < s.len() && s[t + 1] == '/') {
        None
    } else {
        let a = t + 2;
        let open = find_from(s, '(', a);
        let close = find_from(s, ')', a);
        if open >= s.len() || close >= s.len() || close < open {
            None
        } else {
            let p0 = skip_ws_from(s, open + 1);
            let p1 = rtrim_end(s, p0, close);
            let m = skip_ws_from(s, skip_char_from(s, ':', close + 1));
            Some(
                ParsedView {
                    date: token(s, 0),
                    time: token(s, 1),
                    level: s.subrange(t, t + 1),
                    pid: s.subrange(p0, p1),
                    tid: Seq::<char>::empty(),
                    tag: s.subrange(a, open),
                    message: s.subrange(m, s.len() as int),
                },
            )
        }
    }
}

/// The end of a line once trailing `\r` and `\n` characters are removed.
pub open spec fn crlf_end(s: Seq<char>, hi: int) -> int
    decreases hi,
{
    if 0 < hi <= s.len() && (s[hi - 1] == '\r' || s[hi - 1] == '\n') {
        crlf_end(s, hi - 1)
    } else {
        hi
    }
}

/// The view of a raw line that neither format accepts: the whole line is the message.
pub open spec fn raw_view(s: Seq<char>) -> ParsedView {
    ParsedView {
        date: Seq::<char>::empty(),
        time: Seq::<char>::empty(),
        level: Seq::<char>::empty(),
        pid: Seq::<char>::empty(),
        tid: Seq::<char>::empty(),
        tag: Seq::<char>::empty(),
        message: s,
    }
}

/// threadtime first, then time, else the whole (line-ending-trimmed) line as the message.
pub open spec fn spec_parse_line(s: Seq<char>) -> ParsedView {
    let line = s.subrange(0, crlf_end(s, s.len() as int));
    match spec_parse_threadtime(line) {
        Some(v) => v,
        None => match spec_parse_time(line) {
            Some(v) => v,
            None => raw_view(line),
        },
    }
}

fn all_digit_range(s: &Vec<char>, lo: usize, hi: usize) -> (r: bool)
    requires
        lo <= hi <= s@.len(),
    ensures
        r == all_digit_chars(s@.subrange(lo as int, hi as int)),
{
    let mut i = lo;
    while i < hi
        invariant
            lo <= i <= hi,
            hi <= s@.len(),
            forall|k: int| lo <= k < i ==> '0' <= #[trigger] s@[k] <= '9',
        decreases hi - i,
    {
        let c = s[i];
        if !('0' <= c && c <= '9') {
            assert(s@.subrange(lo as int, hi as int)[i - lo] == c);
            return false;
        }
        i = i + 1;
    }
    assert forall|k: int| 0 <= k < hi - lo implies '0' <= #[trigger] s@.subrange(lo as int, hi as int)[k] <= '9' by {
        assert(s@.subrange(lo as int, hi as int)[k] == s@[lo + k]);
    }
    true
}

fn level_char(c: char) -> (r: bool)
    ensures
        r == is_level_char(c),
{
    c == 'V' || c == 'D' || c == 'I' || c == 'W' || c == 'E' || c == 'F'
}

fn parse_threadtime_chars<'a>(line: &'a str, s: &Vec<char>) -> (r: Option<ParsedLine<'a>>)
    requires
        s@ == line@,
    ensures
        match r {
            Some(p) => spec_parse_threadtime(line@) == Some(p@),
            None => spec_parse_threadtime(line@) is None,
        },
{
    proof {
        lemma_token_start_bounds(s@, 0);
        lemma_token_start_bounds(s@, 1);
        lemma_token_start_bounds(s@, 2);
        lemma_token_start_bounds(s@, 3);
        lemma_token_start_bounds(s@, 4);
        lemma_token_start_bounds(s@, 5);
        lemma_token_start_bounds(s@, 6);
    }
    let (d0, d1) = next_token(s, Ghost(0), 0);
    let (t0, t1) = next_token(s, Ghost(1), d1);
    let (p0, p1) = next_token(s, Ghost(2), t1);
    let (i0, i1) = next_token(s, Ghost(3), p1);
    let (l0, l1) = next_token(s, Ghost(4), i1);
    proof {
        // a token that exists starts at or before the start of every later one
        lemma_skip_ws_bounds(s@, d1 as int);
        lemma_skip_ws_bounds(s@, t1 as int);
        lemma_skip_ws_bounds(s@, p1 as int);
        lemma_skip_ws_bounds(s@, i1 as int);
    }
    if l0 >= s.len() {
        return None;
    }
    if !all_digit_range(s, p0, p1) || !all_digit_range(s, i0, i1) {
        return None;
    }
    if !(l1 - l0 == 1 && level_char(s[l0])) {
        return None;
    }
    let (x0, _x1) = next_token(s, Ghost(5), l1);
    if x0 >= s.len() {
        return None;
    }
    let n = s.len();
    let colon = find_char(s, ':', x0);
    let ws = skip_word(s, x0);
    let tag;
    let message;
    if colon < n {
        let tag_end = rtrim(s, x0, colon);
        let m0 = skip_ws(s, colon + 1);
        tag = line.substring_char(x0, tag_end);
        message = line.substring_char(m0, n);
    } else if ws < n {
        let m0 = skip_ws(s, ws);
        tag = line.substring_char(x0, ws);
        message = line.substring_char(m0, n);
    } else {
        tag = line.substring_char(x0, n);
        message = line.substring_char(n, n);
    }
    let r = ParsedLine {
        date: line.substring_char(d0, d1),
        time: line.substring_char(t0, t1),
        level: line.substring_char(l0, l1),
        pid: line.substring_char(p0, p1),
        tid: line.substring_char(i0, i1),
        tag,
        message,
    };
    proof {
        assert(r@ =~= spec_parse_threadtime(line@)->0);
    }
    Some(r)
}

fn parse_time_chars<'a>(line: &'a str, s: &Vec<char>) -> (r: Option<ParsedLine<'a>>)
    requires
        s@ == line@,
    ensures
        match r {
            Some(p) => spec_parse_time(line@) == Some(p@),
            None => spec_parse_time(line@) is None,
        },
{
    proof {
        lemma_token_start_bounds(s@, 0);
        lemma_token_start_bounds(s@, 1);
        lemma_token_start_bounds(s@, 2);
    }
    let n = s.len();
    let (d0, d1) = next_token(s, Ghost(0), 0);
    let (t0, t1) = next_token(s, Ghost(1), d1);
    let (r0, _r1) = next_token(s, Ghost(2), t1);
    proof {
        lemma_skip_ws_bounds(s@, d1 as int);
        lemma_skip_ws_bounds(s@, t1 as int);
    }
    if t0 >= n || r0 >= n {
        return None;
    }
    if !level_char(s[r0]) || !(r0 + 1 < n && s[r0 + 1] == '/') {
        return None;
    }
    let a = r0 + 2;
    let open = find_char(s, '(', a);
    let close = find_char(s, ')', a);
    if open >= n || close >= n || close < open {
        return None;
    }
    proof {
        lemma_find_bounds(s@, '(', a as int);
        lemma_find_bounds(s@, ')', a as int);
        assert(close > open);
        lemma_skip_ws_bounds(s@, open + 1);
        assert(!spec_ws(s@[close as int]));
    }
    let q0 = skip_ws(s, open + 1);
    assert(q0 <= close) by {
        if q0 > close {
            assert(spec_ws(s@[close as int]));
        }
    }
    let q1 = rtrim(s, q0, close);
    let c1 = skip_char(s, ':', close + 1);
    let m = skip_ws(s, c1);
    let r = ParsedLine {
        date: line.substring_char(d0, d1),
        time: line.substring_char(t0, t1),
        level: line.substring_char(r0, r0 + 1),
        pid: line.substring_char(q0, q1),
        tid: line.substring_char(n, n),
        tag: line.substring_char(a, open),
        message: line.substring_char(m, n),
    };
    proof {
        assert(r@ =~= spec_parse_time(line@)->0);
    }
    Some(r)
}

/// `MM-DD HH:MM:SS.mmm  PID  TID L Tag: message`(借用式)
pub fn parse_threadtime_ref<'a>(line: &'a str) -> (r: Option<ParsedLine<'a>>)
    ensures
        match r {
            Some(p) => spec_parse_threadtime(line@) == Some(p@),
            None => spec_parse_threadtime(line@) is None,
        },
{
    let s = str_chars(line);
    parse_threadtime_chars(line, &s)
}

/// `MM-DD HH:MM:SS.mmm L/Tag(  pid): message`(借用式)
pub fn parse_time_ref<'a>(line: &'a str) -> (r: Option<ParsedLine<'a>>)
    ensures
        match r {
            Some(p) => spec_parse_time(line@) == Some(p@),
            None => spec_parse_time(line@) is None,
        },
{
    let s = str_chars(line);
    parse_time_chars(line, &s)
}

/// 依次尝试 threadtime → time,失败则整行作为 message。(借用式)
pub fn parse_line_ref<'a>(line: &'a str) -> (r: ParsedLine<'a>)
    ensures
        r@ == spec_parse_line(line@),
{
    let all = str_chars(line);
    let mut end = all.len();
    while end > 0 && (all[end - 1] == '\r' || all[end - 1] == '\n')
        invariant
            0 <= end <= all@.len(),
            crlf_end(all@, all@.len() as int) == crlf_end(all@, end as int),
        decreases end,
    {
        end = end - 1;
    }
    let trimmed = line.substring_char(0, end);
    let s = str_chars(trimmed);
    match parse_threadtime_chars(trimmed, &s) {
        Some(p) => p,
        None => match parse_time_chars(trimmed, &s) {
            Some(p) => p,
            None => {
                let empty = trimmed.substring_char(0, 0);
                let r = ParsedLine {
                    date: empty,
                    time: empty,
                    level: empty,
                    pid: empty,
                    tid: empty,
                    tag: empty,
                    message: trimmed,
                };
                assert(r@ =~= raw_view(trimmed@));
                r
            },
        },
    }
}


/// The logcat level letters, as bytes.
pub open spec fn is_level_byte(b: u8) -> bool {
    b == 0x56u8 || b == 0x44u8 || b == 0x49u8 || b == 0x57u8 || b == 0x45u8 || b == 0x46u8
}

fn level_byte(b: u8) -> (r: bool)
    ensures
        r == is_level_byte(b),
{
    b == 0x56u8 || b == 0x44u8 || b == 0x49u8 || b == 0x57u8 || b == 0x45u8 || b == 0x46u8
}

/// The level byte of a threadtime line (at least six ASCII tokens).
pub open spec fn spec_threadtime_level_byte(s: Seq<u8>) -> Option<u8> {
    if has_btoken(s, 5) && spec_all_digits(btoken(s, 2)) && spec_all_digits(btoken(s, 3))
        && btoken(s, 4).len() == 1 && is_level_byte(btoken(s, 4)[0]) {
        Some(btoken(s, 4)[0])
    } else {
        None
    }
}

/// Where the `L/Tag(pid)` shape of a time line starts and ends, if it has one.
pub open spec fn spec_time_shape(s: Seq<u8>) -> Option<(int, int)> {
    let t = btoken_start(s, 2);
    if !has_btoken(s, 2) || !is_level_byte(s[t]) || !(t + 1 < s.len() && s[t + 1] == 0x2Fu8) {
        None
    } else {
        let open = bfind_from(s, 0x28u8, t + 2);
        let close = bfind_from(s, 0x29u8, t + 2);
        if open >= s.len() || close >= s.len() || close < open {
            None
        } else {
            Some((t, open))
        }
    }
}

/// The level byte of a time line.
pub open spec fn spec_time_level_byte(s: Seq<u8>) -> Option<u8> {
    match spec_time_shape(s) {
        Some((t, _)) => Some(s[t]),
        None => None,
    }
}

/// The level byte of a line, with the same meaning as the parsed level.
pub open spec fn spec_level_byte_of_line(s: Seq<u8>) -> Option<u8> {
    match spec_threadtime_level_byte(s) {
        Some(b) => Some(b),
        None => spec_time_level_byte(s),
    }
}

fn threadtime_level_byte(line: &[u8]) -> (r: Option<u8>)
    ensures
        r == spec_threadtime_level_byte(line@),
{
    proof {
        lemma_btoken_bounds(line@, 0);
        lemma_btoken_bounds(line@, 1);
        lemma_btoken_bounds(line@, 2);
        lemma_btoken_bounds(line@, 3);
        lemma_btoken_bounds(line@, 4);
        lemma_btoken_bounds(line@, 5);
    }
    let (_d0, d1) = next_btoken(line, Ghost(0), 0);
    let (_t0, t1) = next_btoken(line, Ghost(1), d1);
    let (p0, p1) = next_btoken(line, Ghost(2), t1);
    let (i0, i1) = next_btoken(line, Ghost(3), p1);
    let (l0, l1) = next_btoken(line, Ghost(4), i1);
    let (x0, _x1) = next_btoken(line, Ghost(5), l1);
    if x0 >= line.len() {
        return None;
    }
    if !all_digits(&line[p0..p1]) || !all_digits(&line[i0..i1]) {
        return None;
    }
    if l1 - l0 != 1 || !level_byte(line[l0]) {
        return None;
    }
    Some(line[l0])
}

fn time_shape(line: &[u8]) -> (r: Option<(usize, usize)>)
    ensures
        match r {
            Some((t, o)) => spec_time_shape(line@) == Some((t as int, o as int)) && t + 2 <= o < line@.len(),
            None => spec_time_shape(line@) is None,
        },
{
    proof {
        lemma_btoken_bounds(line@, 0);
        lemma_btoken_bounds(line@, 1);
        lemma_btoken_bounds(line@, 2);
    }
    let (_d0, d1) = next_btoken(line, Ghost(0), 0);
    let (_t0, t1) = next_btoken(line, Ghost(1), d1);
    let (r0, _r1) = next_btoken(line, Ghost(2), t1);
    let n = line.len();
    if r0 >= n || !level_byte(line[r0]) || !(r0 + 1 < n && line[r0 + 1] == 0x2Fu8) {
        return None;
    }
    let open = bfind(line, 0x28u8, r0 + 2);
    let close = bfind(line, 0x29u8, r0 + 2);
    if open >= n || close >= n || close < open {
        return None;
    }
    Some((r0, open))
}

fn time_level_byte(line: &[u8]) -> (r: Option<u8>)
    ensures
        r == spec_time_level_byte(line@),
{
    match time_shape(line) {
        Some((t, _)) => Some(line[t]),
        None => None,
    }
}

/// 零分配地判断一行的日志级别字节(b'V'..b'F'),语义与 parse_line(...).level 一致。
pub fn level_byte_of_line(line: &[u8]) -> (r: Option<u8>)
    ensures
        r == spec_level_byte_of_line(line@),
{
    match threadtime_level_byte(line) {
        Some(b) => Some(b),
        None => time_level_byte(line),
    }
}

/// Whether every byte is ASCII.
pub open spec fn spec_is_ascii(s: Seq<u8>) -> bool {
    forall|i: int| 0 <= i < s.len() ==> #[trigger] s[i] < 0x80u8
}

pub fn is_ascii_bytes(s: &[u8]) -> (r: bool)
    ensures
        r == spec_is_ascii(s@),
{
    let mut i: usize = 0;
    while i < s.len()
        invariant
            0 <= i <= s@.len(),
            forall|k: int| 0 <= k < i ==> #[trigger] s@[k] < 0x80u8,
        decreases s@.len() - i,
    {
        if s[i] >= 0x80u8 {
            return false;
        }
        i = i + 1;
    }
    true
}

/// The date, time and tag of a line that has a logcat envelope, borrowed from the line.
#[derive(Debug, Clone, Copy)]
pub struct AsciiLogEnvelope<'a> {
    pub date: &'a [u8],
    pub time: &'a [u8],
    pub tag: &'a [u8],
}

/// The abstract value of an envelope.
pub open spec fn envelope_view(e: AsciiLogEnvelope) -> (Seq<u8>, Seq<u8>, Seq<u8>) {
    (e.date@, e.time@, e.tag@)
}

/// The tag span of a threadtime envelope.
pub open spec fn spec_threadtime_tag(s: Seq<u8>) -> Option<Seq<u8>> {
    if !has_btoken(s, 5) || !spec_all_digits(btoken(s, 2)) || !spec_all_digits(btoken(s, 3))
        || btoken(s, 4).len() != 1 || !is_level_byte(btoken(s, 4)[0]) {
        None
    } else {
        let t = btoken_start(s, 5);
        let colon = bfind_from(s, 0x3Au8, t);
        let tag = if colon < s.len() {
            s.subrange(t, brtrim_end(s, t, colon))
        } else {
            s.subrange(t, bskip_word_from(s, t))
        };
        if tag.len() > 0 && spec_is_ascii(tag) {
            Some(tag)
        } else {
            None
        }
    }
}

/// The tag span of a time envelope.
pub open spec fn spec_time_tag(s: Seq<u8>) -> Option<Seq<u8>> {
    match spec_time_shape(s) {
        Some((t, open)) => {
            let tag = s.subrange(t + 2, open);
            if tag.len() > 0 && spec_is_ascii(tag) {
                Some(tag)
            } else {
                None
            }
        },
        None => None,
    }
}

/// The envelope of a line: threadtime first, then time.
pub open spec fn spec_envelope(s: Seq<u8>) -> Option<(Seq<u8>, Seq<u8>, Seq<u8>)> {
    match spec_threadtime_tag(s) {
        Some(tag) => Some((btoken(s, 0), btoken(s, 1), tag)),
        None => match spec_time_tag(s) {
            Some(tag) => Some((btoken(s, 0), btoken(s, 1), tag)),
            None => None,
        },
    }
}

fn threadtime_ascii_envelope<'a>(line: &'a [u8]) -> (r: Option<AsciiLogEnvelope<'a>>)
    ensures
        match r {
            Some(e) => spec_threadtime_tag(line@) == Some(e.tag@) && e.date@ == btoken(line@, 0)
                && e.time@ == btoken(line@, 1),
            None => spec_threadtime_tag(line@) is None,
        },
{
    proof {
        lemma_btoken_bounds(line@, 0);
        lemma_btoken_bounds(line@, 1);
        lemma_btoken_bounds(line@, 2);
        lemma_btoken_bounds(line@, 3);
        lemma_btoken_bounds(line@, 4);
        lemma_btoken_bounds(line@, 5);
    }
    let n = line.len();
    let (d0, d1) = next_btoken(line, Ghost(0), 0);
    let (t0, t1) = next_btoken(line, Ghost(1), d1);
    let (p0, p1) = next_btoken(line, Ghost(2), t1);
    let (i0, i1) = next_btoken(line, Ghost(3), p1);
    let (l0, l1) = next_btoken(line, Ghost(4), i1);
    let (x0, _x1) = next_btoken(line, Ghost(5), l1);
    if x0 >= n {
        return None;
    }
    if !all_digits(&line[p0..p1]) || !all_digits(&line[i0..i1]) {
        return None;
    }
    if l1 - l0 != 1 || !level_byte(line[l0]) {
        return None;
    }
    let colon = bfind(line, 0x3Au8, x0);
    let tag_end = if colon < n {
        brtrim(line, x0, colon)
    } else {
        bskip_word(line, x0)
    };
    let tag = &line[x0..tag_end];
    if tag.len() == 0 || !is_ascii_bytes(tag) {
        return None;
    }
    Some(AsciiLogEnvelope { date: &line[d0..d1], time: &line[t0..t1], tag })
}

fn time_ascii_envelope<'a>(line: &'a [u8]) -> (r: Option<AsciiLogEnvelope<'a>>)
    ensures
        match r {
            Some(e) => spec_time_tag(line@) == Some(e.tag@) && e.date@ == btoken(line@, 0)
                && e.time@ == btoken(line@, 1),
            None => spec_time_tag(line@) is None,
        },
{
    proof {
        lemma_btoken_bounds(line@, 0);
        lemma_btoken_bounds(line@, 1);
    }
    let (d0, d1) = next_btoken(line, Ghost(0), 0);
    let (t0, t1) = next_btoken(line, Ghost(1), d1);
    match time_shape(line) {
        Some((t, open)) => {
            let tag = &line[t + 2..open];
            if tag.len() == 0 || !is_ascii_bytes(tag) {
                return None;
            }
            Some(AsciiLogEnvelope { date: &line[d0..d1], time: &line[t0..t1], tag })
        },
        None => None,
    }
}

/// The ASCII envelope of a line: threadtime first, then time.
pub fn ascii_log_envelope<'a>(line: &'a [u8]) -> (r: Option<AsciiLogEnvelope<'a>>)
    ensures
        match r {
            Some(e) => spec_envelope(line@) == Some(envelope_view(e)),
            None => spec_envelope(line@) is None,
        },
{
    match threadtime_ascii_envelope(line) {
        Some(e) => Some(e),
        None => time_ascii_envelope(line),
    }
}

/// 零分配借用 ASCII tag,用于在解码与完整字段解析前做保守候选预筛。
pub fn tag_bytes_of_line<'a>(line: &'a [u8]) -> (r: Option<&'a [u8]>)
    ensures
        match r {
            Some(tag) => spec_envelope(line@) matches Some(e) && e.2 == tag@,
            None => spec_envelope(line@) is None,
        },
{
    match ascii_log_envelope(line) {
        Some(e) => Some(e.tag),
        None => None,
    }
}

} // verus!


verus! {

/// `MM-DD HH:MM:SS.mmm  PID  TID L Tag: message`
pub fn parse_threadtime(line: &str) -> (r: Option<crate::model::LogEntry>)
    ensures
        match r {
            Some(e) => spec_parse_threadtime(line@) == Some(e@),
            None => spec_parse_threadtime(line@) is None,
        },
{
    match parse_threadtime_ref(line) {
        Some(p) => Some(crate::model::LogEntry::from_parsed(p)),
        None => None,
    }
}

/// `MM-DD HH:MM:SS.mmm L/Tag(  pid): message`
pub fn parse_time(line: &str) -> (r: Option<crate::model::LogEntry>)
    ensures
        match r {
            Some(e) => spec_parse_time(line@) == Some(e@),
            None => spec_parse_time(line@) is None,
        },
{
    match parse_time_ref(line) {
        Some(p) => Some(crate::model::LogEntry::from_parsed(p)),
        None => None,
    }
}

/// 依次尝试 threadtime → time,失败则整行作为 message。
pub fn parse_line(line: &str) -> (r: crate::model::LogEntry)
    ensures
        r@ == spec_parse_line(line@),
{
    crate::model::LogEntry::from_parsed(parse_line_ref(line))
}

} // verus!
