//! The level byte of a line agrees with the level the full parser reads from it.
use vstd::prelude::*;
use crate::bytes_tok::{
    bfind_from, bskip_word_from, bskip_ws_from, btoken, btoken_start, has_btoken, lemma_bskip_word_bounds, lemma_bskip_ws_bounds,
    lemma_btoken_bounds,
};
use crate::chars::{
    find_from, has_token, lemma_skip_word_bounds, lemma_skip_ws_bounds, lemma_token_start_bounds, skip_word_from,
    skip_ws_from, spec_ws, token, token_start,
};
use crate::parser::{
    all_digit_chars, crlf_end, is_level_byte, is_level_char, spec_level_byte_of_line, spec_parse_line, spec_parse_threadtime,
    spec_parse_time, spec_threadtime_level_byte, spec_time_level_byte,
};
use crate::util::spec_all_digits;
use crate::util::spec_ascii_ws;

verus! {

/// `s` is the ASCII line `b` read as characters.
pub open spec fn spec_ascii_line(b: Seq<u8>, s: Seq<char>) -> bool {
    &&& s.len() == b.len()
    &&& forall|i: int| 0 <= i < b.len() ==> (#[trigger] b[i]) < 0x80 && s[i] as u32 == b[i] as u32
}

/// No byte of `b` at or before `n` is a vertical tab, the one ASCII character that only the
/// character parser counts as whitespace.
pub open spec fn spec_no_vertical_tab_upto(b: Seq<u8>, n: int) -> bool {
    forall|q: int| 0 <= q < b.len() && q <= n ==> #[trigger] b[q] != 0x0Bu8
}

proof fn lemma_ws_agrees(b: Seq<u8>, s: Seq<char>, i: int)
    requires
        spec_ascii_line(b, s),
        0 <= i < b.len(),
        b[i] != 0x0Bu8,
    ensures
        spec_ws(s[i]) == spec_ascii_ws(b[i]),
{
    assert(b[i] < 0x80 && s[i] as u32 == b[i] as u32);
}

proof fn lemma_skips_agree(b: Seq<u8>, s: Seq<char>, i: int, n: int)
    requires
        spec_ascii_line(b, s),
        spec_no_vertical_tab_upto(b, n),
        0 <= i,
    ensures
        bskip_ws_from(b, i) <= n ==> skip_ws_from(s, i) == bskip_ws_from(b, i),
        bskip_word_from(b, i) <= n ==> skip_word_from(s, i) == bskip_word_from(b, i),
    decreases b.len() - i,
{
    if 0 <= i < b.len() {
        lemma_skips_agree(b, s, i + 1, n);
        lemma_bskip_ws_bounds(b, i);
        lemma_bskip_word_bounds(b, i);
        if i <= n {
            lemma_ws_agrees(b, s, i);
        }
    }
}

proof fn lemma_byte_token_steps(b: Seq<u8>, k: nat)
    ensures
        btoken_start(b, k) <= bskip_word_from(b, btoken_start(b, k)) <= btoken_start(b, k + 1) <= b.len(),
{
    lemma_btoken_bounds(b, k);
    lemma_btoken_bounds(b, k + 1);
    lemma_bskip_word_bounds(b, btoken_start(b, k));
    lemma_bskip_ws_bounds(b, bskip_word_from(b, btoken_start(b, k)));
}

proof fn lemma_token_starts_agree(b: Seq<u8>, s: Seq<char>, k: nat, n: int)
    requires
        spec_ascii_line(b, s),
        spec_no_vertical_tab_upto(b, n),
        btoken_start(b, k) <= n,
    ensures
        token_start(s, k) == btoken_start(b, k),
    decreases k,
{
    if k == 0 {
        lemma_skips_agree(b, s, 0, n);
    } else {
        let k1 = (k - 1) as nat;
        lemma_byte_token_steps(b, k1);
        lemma_btoken_bounds(b, k1);
        lemma_token_starts_agree(b, s, k1, n);
        let p = token_start(s, k1);
        lemma_skips_agree(b, s, p, n);
        lemma_bskip_word_bounds(b, p);
        lemma_skips_agree(b, s, skip_word_from(s, p), n);
    }
}

/// The first six byte tokens start in order.
proof fn lemma_byte_token_order(b: Seq<u8>)
    ensures
        forall|k: nat| k <= 5 ==> #[trigger] btoken_start(b, k) <= btoken_start(b, 5),
{
    lemma_byte_token_steps(b, 0);
    lemma_byte_token_steps(b, 1);
    lemma_byte_token_steps(b, 2);
    lemma_byte_token_steps(b, 3);
    lemma_byte_token_steps(b, 4);
    assert forall|k: nat| k <= 5 implies #[trigger] btoken_start(b, k) <= btoken_start(b, 5) by {
        if k == 0 {
        } else if k == 1 {
        } else if k == 2 {
        } else if k == 3 {
        } else if k == 4 {
        }
    }
}

proof fn lemma_finds_agree(b: Seq<u8>, s: Seq<char>, c: char, x: u8, i: int)
    requires
        spec_ascii_line(b, s),
        c as u32 == x as u32,
    ensures
        find_from(s, c, i) == bfind_from(b, x, i),
    decreases b.len() - i,
{
    if 0 <= i < b.len() {
        assert(s[i] as u32 == b[i] as u32);
        vstd::utf8::char_u32_cast(s[i], s[i] as u32);
        vstd::utf8::char_u32_cast(c, c as u32);
        lemma_finds_agree(b, s, c, x, i + 1);
    }
}

/// `t` is `s` without a tail of line breaks that starts at `e`.
pub open spec fn spec_trimmed(s: Seq<char>, t: Seq<char>, e: int) -> bool {
    &&& 0 <= e <= s.len()
    &&& t == s.subrange(0, e)
    &&& forall|j: int| e <= j < s.len() ==> (#[trigger] s[j] == '\r' || s[j] == '\n')
}

/// `x` capped at `e`.
pub open spec fn spec_cap(x: int, e: int) -> int {
    if x < e { x } else { e }
}

proof fn lemma_trimmed_skips(s: Seq<char>, t: Seq<char>, e: int, i: int)
    requires
        spec_trimmed(s, t, e),
        0 <= i <= e,
    ensures
        skip_word_from(t, i) == skip_word_from(s, i),
        skip_word_from(s, i) <= e,
        skip_ws_from(t, i) == spec_cap(skip_ws_from(s, i), e),
    decreases e - i,
{
    lemma_skip_ws_bounds(s, i);
    if i < e {
        assert(t[i] == s[i]);
        lemma_trimmed_skips(s, t, e, i + 1);
    } else if e < s.len() {
        assert(s[e] == '\r' || s[e] == '\n');
    }
}

proof fn lemma_trimmed_token_starts(s: Seq<char>, t: Seq<char>, e: int, k: nat)
    requires
        spec_trimmed(s, t, e),
    ensures
        token_start(t, k) == spec_cap(token_start(s, k), e),
    decreases k,
{
    lemma_token_start_bounds(s, k);
    if k == 0 {
        lemma_trimmed_skips(s, t, e, 0);
    } else {
        lemma_trimmed_token_starts(s, t, e, (k - 1) as nat);
        let p = token_start(s, (k - 1) as nat);
        lemma_token_start_bounds(s, (k - 1) as nat);
        lemma_skip_word_bounds(s, p);
        lemma_skip_ws_bounds(s, skip_word_from(s, p));
        if p < e {
            lemma_trimmed_skips(s, t, e, p);
            lemma_trimmed_skips(s, t, e, skip_word_from(s, p));
        } else {
            lemma_skip_word_bounds(t, e);
            lemma_skip_ws_bounds(t, e);
        }
    }
}

proof fn lemma_trimmed_finds(s: Seq<char>, t: Seq<char>, e: int, c: char, i: int)
    requires
        spec_trimmed(s, t, e),
        c != '\r' && c != '\n',
        0 <= i <= e,
    ensures
        find_from(t, c, i) == spec_cap(find_from(s, c, i), e),
        find_from(s, c, i) >= e ==> find_from(s, c, i) == s.len(),
    decreases s.len() - i,
{
    if i < e {
        assert(t[i] == s[i]);
        lemma_trimmed_finds(s, t, e, c, i + 1);
    } else if i < s.len() {
        assert(s[i] == '\r' || s[i] == '\n');
        lemma_trimmed_finds_tail(s, c, i);
    }
}

proof fn lemma_trimmed_finds_tail(s: Seq<char>, c: char, i: int)
    requires
        c != '\r' && c != '\n',
        0 <= i <= s.len(),
        forall|j: int| i <= j < s.len() ==> (#[trigger] s[j] == '\r' || s[j] == '\n'),
    ensures
        find_from(s, c, i) == s.len(),
    decreases s.len() - i,
{
    if i < s.len() {
        assert(s[i] == '\r' || s[i] == '\n');
        lemma_trimmed_finds_tail(s, c, i + 1);
    }
}

/// A token that starts inside `s` starts before its tail of line breaks.
proof fn lemma_token_before_tail(s: Seq<char>, t: Seq<char>, e: int, k: nat)
    requires
        spec_trimmed(s, t, e),
    ensures
        token_start(s, k) < s.len() ==> token_start(s, k) < e,
        token_start(s, k + 1) < s.len() ==> token_start(s, k) < s.len(),
{
    lemma_token_start_bounds(s, k);
    let p = token_start(s, k);
    if k == 0 {
        lemma_skip_ws_bounds(s, 0);
    } else {
        lemma_skip_ws_bounds(s, skip_word_from(s, token_start(s, (k - 1) as nat)));
        lemma_token_start_bounds(s, (k - 1) as nat);
        lemma_skip_word_bounds(s, token_start(s, (k - 1) as nat));
    }
    if p < s.len() && p >= e {
        assert(s[p] == '\r' || s[p] == '\n');
    }
    lemma_skip_word_bounds(s, p);
    lemma_skip_ws_bounds(s, skip_word_from(s, p));
}

/// The `i`-th character of `t` has the code of the `i`-th byte of `b`.
proof fn lemma_code_at(b: Seq<u8>, s: Seq<char>, t: Seq<char>, e: int, i: int)
    requires
        spec_ascii_line(b, s),
        spec_trimmed(s, t, e),
        0 <= i < e,
    ensures
        t[i] as u32 == b[i] as u32,
{
    assert(t[i] == s[i]);
    assert(s[i] as u32 == b[i] as u32);
}

/// The token facts the two readings share: each of the first six token starts of the
/// trimmed characters is the byte one, capped at the trim, and a token that exists starts
/// before the trim.
proof fn lemma_token_facts(b: Seq<u8>, s: Seq<char>, t: Seq<char>, e: int)
    requires
        spec_ascii_line(b, s),
        spec_no_vertical_tab_upto(b, btoken_start(b, 5)),
        spec_trimmed(s, t, e),
    ensures
        forall|k: nat| #![trigger token_start(t, k)] #![trigger btoken_start(b, k)] k <= 5 ==> token_start(t, k) == spec_cap(btoken_start(b, k), e)
            && (btoken_start(b, k) < b.len() ==> btoken_start(b, k) < e),
        forall|k: nat| #![trigger btoken_start(b, k)] k <= 4 ==> (btoken_start(b, k + 1) < b.len() ==> btoken_start(b, k) < b.len()),
{
    lemma_byte_token_order(b);
    assert forall|k: nat| #![trigger token_start(t, k)] #![trigger btoken_start(b, k)] k <= 5 implies token_start(t, k) == spec_cap(btoken_start(b, k), e)
        && (btoken_start(b, k) < b.len() ==> btoken_start(b, k) < e) by {
        lemma_token_starts_agree(b, s, k, btoken_start(b, 5));
        lemma_trimmed_token_starts(s, t, e, k);
        lemma_token_before_tail(s, t, e, k);
    }
    assert forall|k: nat| #![trigger btoken_start(b, k)] k <= 4 implies (btoken_start(b, k + 1) < b.len() ==> btoken_start(b, k) < b.len()) by {
        lemma_byte_token_steps(b, k);
    }
}

/// A byte token that exists is the character token of the trimmed line, code for code.
proof fn lemma_token_agrees(b: Seq<u8>, s: Seq<char>, t: Seq<char>, e: int, k: nat)
    requires
        spec_ascii_line(b, s),
        spec_no_vertical_tab_upto(b, btoken_start(b, 5)),
        spec_trimmed(s, t, e),
        k <= 4,
        btoken_start(b, k) < b.len(),
    ensures
        has_token(t, k),
        token(t, k).len() == btoken(b, k).len(),
        forall|j: int| 0 <= j < token(t, k).len() ==> (#[trigger] token(t, k)[j]) as u32 == btoken(b, k)[j] as u32,
{
    lemma_token_facts(b, s, t, e);
    lemma_byte_token_order(b);
    lemma_token_starts_agree(b, s, k, btoken_start(b, 5));
    lemma_token_start_bounds(s, k);
    let p = btoken_start(b, k);
    assert(token_start(t, k) == p);
    lemma_trimmed_skips(s, t, e, p);
    lemma_byte_token_steps(b, k);
    lemma_byte_token_steps(b, (k + 1) as nat);
    lemma_skips_agree(b, s, p, btoken_start(b, 5));
    lemma_skip_word_bounds(s, p);
    assert forall|j: int| 0 <= j < token(t, k).len() implies (#[trigger] token(t, k)[j]) as u32 == btoken(b, k)[j] as u32 by {
        lemma_code_at(b, s, t, e, p + j);
    }
}

proof fn lemma_digit_code(c: char, x: u8)
    requires
        c as u32 == x as u32,
    ensures
        ('0' <= c <= '9') == crate::util::spec_digit(x),
        is_level_char(c) == is_level_byte(x),
        (c == '/') == (x == 0x2Fu8),
{
    vstd::utf8::char_u32_cast(c, c as u32);
}

proof fn lemma_threadtime_agrees(b: Seq<u8>, s: Seq<char>, t: Seq<char>, e: int)
    requires
        spec_ascii_line(b, s),
        spec_no_vertical_tab_upto(b, btoken_start(b, 5)),
        spec_trimmed(s, t, e),
    ensures
        match spec_threadtime_level_byte(b) {
            Some(x) => spec_parse_threadtime(t) matches Some(v) && v.level.len() == 1 && v.level[0] as u32 == x as u32,
            None => spec_parse_threadtime(t) is None,
        },
{
    lemma_token_facts(b, s, t, e);
    assert(token_start(t, 4) == spec_cap(btoken_start(b, 4), e));
    assert(token_start(t, 5) == spec_cap(btoken_start(b, 5), e));
    assert(btoken_start(b, 5) < b.len() ==> btoken_start(b, 4) < b.len());
    if has_token(t, 4) {
        assert(btoken_start(b, 4) < b.len());
        assert(btoken_start(b, 4) < b.len() ==> btoken_start(b, 3) < b.len());
        assert(btoken_start(b, 3) < b.len() ==> btoken_start(b, 2) < b.len());
        lemma_token_agrees(b, s, t, e, 2);
        lemma_token_agrees(b, s, t, e, 3);
        lemma_token_agrees(b, s, t, e, 4);
        let c2 = token(t, 2);
        let c3 = token(t, 3);
        let c4 = token(t, 4);
        assert(all_digit_chars(c2) == spec_all_digits(btoken(b, 2))) by {
            if all_digit_chars(c2) {
                assert forall|j: int| 0 <= j < btoken(b, 2).len() implies crate::util::spec_digit(#[trigger] btoken(b, 2)[j]) by {
                    assert(c2[j] as u32 == btoken(b, 2)[j] as u32);
                    lemma_digit_code(c2[j], btoken(b, 2)[j]);
                }
            }
            if spec_all_digits(btoken(b, 2)) {
                assert forall|j: int| 0 <= j < c2.len() implies '0' <= #[trigger] c2[j] <= '9' by {
                    assert(c2[j] as u32 == btoken(b, 2)[j] as u32);
                    lemma_digit_code(c2[j], btoken(b, 2)[j]);
                }
            }
        }
        assert(all_digit_chars(c3) == spec_all_digits(btoken(b, 3))) by {
            if all_digit_chars(c3) {
                assert forall|j: int| 0 <= j < btoken(b, 3).len() implies crate::util::spec_digit(#[trigger] btoken(b, 3)[j]) by {
                    assert(c3[j] as u32 == btoken(b, 3)[j] as u32);
                    lemma_digit_code(c3[j], btoken(b, 3)[j]);
                }
            }
            if spec_all_digits(btoken(b, 3)) {
                assert forall|j: int| 0 <= j < c3.len() implies '0' <= #[trigger] c3[j] <= '9' by {
                    assert(c3[j] as u32 == btoken(b, 3)[j] as u32);
                    lemma_digit_code(c3[j], btoken(b, 3)[j]);
                }
            }
        }
        if c4.len() == 1 {
            assert(c4[0] as u32 == btoken(b, 4)[0] as u32);
            lemma_digit_code(c4[0], btoken(b, 4)[0]);
        }
    }
}

proof fn lemma_time_agrees(b: Seq<u8>, s: Seq<char>, t: Seq<char>, e: int)
    requires
        spec_ascii_line(b, s),
        spec_no_vertical_tab_upto(b, btoken_start(b, 5)),
        spec_trimmed(s, t, e),
    ensures
        match spec_time_level_byte(b) {
            Some(x) => spec_parse_time(t) matches Some(v) && v.level.len() == 1 && v.level[0] as u32 == x as u32,
            None => spec_parse_time(t) is None,
        },
{
    lemma_token_facts(b, s, t, e);
    assert(token_start(t, 1) == spec_cap(btoken_start(b, 1), e));
    assert(token_start(t, 2) == spec_cap(btoken_start(b, 2), e));
    assert(btoken_start(b, 2) < b.len() ==> btoken_start(b, 1) < b.len());
    lemma_byte_token_order(b);
    lemma_token_starts_agree(b, s, 2, btoken_start(b, 5));
    lemma_token_start_bounds(s, 2);
    let p = btoken_start(b, 2);
    if p < b.len() {
        assert(p < e);
        lemma_code_at(b, s, t, e, p);
        lemma_digit_code(t[p], b[p]);
        if p + 1 < b.len() {
            assert(b[p + 1] < 0x80 && s[p + 1] as u32 == b[p + 1] as u32);
            if p + 1 >= e {
                assert(s[p + 1] == '\r' || s[p + 1] == '\n');
            }
            if p + 1 < e {
                lemma_code_at(b, s, t, e, p + 1);
                lemma_digit_code(t[p + 1], b[p + 1]);
            }
        }
        if p + 1 < e && t[p + 1] == '/' {
            let a = p + 2;
            lemma_trimmed_finds(s, t, e, '(', a);
            lemma_trimmed_finds(s, t, e, ')', a);
            lemma_finds_agree(b, s, '(', 0x28u8, a);
            lemma_finds_agree(b, s, ')', 0x29u8, a);
        }
    }
}

/// For an ASCII line with no vertical tab among its leading tokens (up to where the sixth
/// starts, or anywhere when it has fewer), the level byte `level_byte_of_line` finds is the
/// one-letter level `parse_line` reads, and it finds none exactly where that level is empty.
pub proof fn lemma_level_byte_agrees_with_parse(b: Seq<u8>, s: Seq<char>)
    requires
        spec_ascii_line(b, s),
        spec_no_vertical_tab_upto(b, btoken_start(b, 5)),
    ensures
        match spec_level_byte_of_line(b) {
            Some(x) => spec_parse_line(s).level.len() == 1 && spec_parse_line(s).level[0] as u32 == x as u32,
            None => spec_parse_line(s).level.len() == 0,
        },
{
    let e = crlf_end(s, s.len() as int);
    lemma_crlf_end(s, s.len() as int);
    let t = s.subrange(0, e);
    assert(spec_trimmed(s, t, e));
    lemma_threadtime_agrees(b, s, t, e);
    lemma_time_agrees(b, s, t, e);
}

proof fn lemma_crlf_end(s: Seq<char>, hi: int)
    requires
        0 <= hi <= s.len(),
        forall|j: int| hi <= j < s.len() ==> (#[trigger] s[j] == '\r' || s[j] == '\n'),
    ensures
        0 <= crlf_end(s, hi) <= hi,
        forall|j: int| crlf_end(s, hi) <= j < s.len() ==> (#[trigger] s[j] == '\r' || s[j] == '\n'),
    decreases hi,
{
    if 0 < hi && (s[hi - 1] == '\r' || s[hi - 1] == '\n') {
        lemma_crlf_end(s, hi - 1);
    }
}

} // verus!
