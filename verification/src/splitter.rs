//! Splitting a script into the text of its pipelines.
//!
//! The scanner walks the characters of the script once, keeping a small set
//! of flags (inside single or double quotes, after a backslash, inside a
//! `$( .. )` process, inside a comment, after whitespace) and hands out the
//! pieces of text that lie between top-level separators (`;`, newlines and
//! carriage returns) and before comments.
use vstd::prelude::*;
use vstd::string::*;

verus! {

pub const BACKSLASH: u8 = 1;
pub const SINGLE_QUOTE: u8 = 2;
pub const DOUBLE_QUOTE: u8 = 4;
pub const WHITESPACE: u8 = 8;
pub const COMMENT: u8 = 16;
pub const PROCESS_ZERO: u8 = 32;
pub const PROCESS_ONE: u8 = 64;
pub const PROCESS_TWO: u8 = 128;

/// A character that separates words without being part of them.
pub open spec fn is_blank(c: char) -> bool {
    c == ' ' || c == '\t' || c == '\n' || c == '\r'
}

/// The text holds at least one character that is not blank.
pub open spec fn has_content(s: Seq<char>) -> bool {
    exists|i: int| 0 <= i < s.len() && !is_blank(#[trigger] s[i])
}

/// Where the scanner stands: its flags, the first position of the piece being
/// gathered (`start`), the next position to read (`end`), and the position of
/// the first blank of the current run of blanks (`white`, 0 when unset).
#[derive(Clone, Copy)]
pub struct ScanState {
    pub flags: u8,
    pub start: usize,
    pub end: usize,
    pub white: usize,
}

/// The state in which the scanner starts on `text`: a leading `#` opens a comment.
pub open spec fn initial_state(text: Seq<char>) -> ScanState {
    ScanState {
        flags: if text.len() > 0 && text[0] == '#' { (COMMENT + PROCESS_ZERO) as u8 } else { PROCESS_ZERO },
        start: 0,
        end: 0,
        white: 0,
    }
}

/// The state after an ordinary character: the run of blanks is over.
pub open spec fn settle(st: ScanState, flags: u8) -> ScanState {
    ScanState { flags: flags & (255 ^ WHITESPACE), start: st.start, end: (st.end + 1) as usize, white: 0 }
}

/// The position of the first blank of the run, recorded if none was.
pub open spec fn mark_white(st: ScanState) -> usize {
    if st.white == 0 { st.end } else { st.white }
}

/// Reading the character at `st.end`: the next state, and the piece `text[a..b]`
/// handed out at this character, if any.
pub open spec fn scan_step(text: Seq<char>, st: ScanState) -> (ScanState, Option<(usize, usize)>)
    recommends
        st.end < text.len(),
{
    let c = text[st.end as int];
    let f = st.flags;
    let next = (st.end + 1) as usize;
    let outside = f & (PROCESS_TWO + SINGLE_QUOTE + DOUBLE_QUOTE) as u8 == 0;
    if f & COMMENT != 0 {
        if c == '\n' {
            (ScanState { flags: f & (255 ^ COMMENT), start: next, end: next, white: st.white }, None)
        } else {
            (ScanState { flags: f, start: st.start, end: next, white: st.white }, None)
        }
    } else if f & BACKSLASH != 0 {
        (settle(st, f ^ BACKSLASH), None)
    } else if c == '\\' {
        (settle(st, f | BACKSLASH), None)
    } else if c == '\'' && f & (PROCESS_TWO + DOUBLE_QUOTE) as u8 == 0 {
        (settle(st, f ^ SINGLE_QUOTE), None)
    } else if c == '"' && f & (PROCESS_TWO + SINGLE_QUOTE) as u8 == 0 {
        (settle(st, f ^ DOUBLE_QUOTE), None)
    } else if c == '$' && f & SINGLE_QUOTE == 0 && f & PROCESS_ZERO != 0 {
        (settle(st, (f | PROCESS_ONE) & (255 ^ PROCESS_ZERO)), None)
    } else if c == '(' && f & SINGLE_QUOTE == 0 && f & PROCESS_ONE != 0 {
        (settle(st, (f | PROCESS_TWO) & (255 ^ PROCESS_ONE)), None)
    } else if c == ')' && f & SINGLE_QUOTE == 0 && f & PROCESS_TWO != 0 {
        (settle(st, (f | PROCESS_ZERO) & (255 ^ PROCESS_TWO)), None)
    } else if c == '#' && outside && f & WHITESPACE != 0 {
        if st.start < st.white {
            (
                ScanState { flags: f | COMMENT, start: next, end: next, white: st.white },
                Some((st.start, st.white)),
            )
        } else {
            (
                settle(
                    ScanState { flags: f, start: next, end: st.end, white: st.white },
                    f | COMMENT,
                ),
                None,
            )
        }
    } else if (c == ' ' || c == '\t') && outside {
        (
            ScanState {
                flags: f | WHITESPACE,
                start: if st.start == st.end { (st.start + 1) as usize } else { st.start },
                end: next,
                white: mark_white(st),
            },
            None,
        )
    } else if (c == ';' || c == '\n' || c == '\r') && outside {
        let after = ScanState { flags: f | WHITESPACE, start: next, end: next, white: mark_white(st) };
        if st.start == st.end {
            (after, None)
        } else if has_content(text.subrange(st.start as int, st.end as int)) {
            (after, Some((st.start, st.end)))
        } else {
            (after, None)
        }
    } else if f & PROCESS_TWO == 0 {
        (settle(st, (f | PROCESS_ZERO) & (255 ^ (PROCESS_ONE + PROCESS_TWO) as u8)), None)
    } else {
        (settle(st, f), None)
    }
}

/// Once every character is read: the rest of the text, unless a comment is open.
pub open spec fn scan_finish(text: Seq<char>, st: ScanState) -> (ScanState, Option<(usize, usize)>) {
    if st.flags & COMMENT == 0 && text.len() > st.start {
        let done = ScanState {
            flags: st.flags,
            start: (text.len() + 1) as usize,
            end: st.end,
            white: st.white,
        };
        if has_content(text.subrange(st.start as int, text.len() as int)) {
            (done, Some((st.start, text.len() as usize)))
        } else {
            (done, None)
        }
    } else {
        (st, None)
    }
}

/// Reading on from `st` until a piece is handed out or the text is used up.
pub open spec fn scan(text: Seq<char>, st: ScanState) -> (ScanState, Option<(usize, usize)>)
    decreases text.len() - st.end,
{
    if st.end < text.len() && st.end < usize::MAX {
        let (next, piece) = scan_step(text, st);
        if piece is Some {
            (next, piece)
        } else {
            scan(text, next)
        }
    } else {
        scan_finish(text, st)
    }
}


/// The comment flag is set.
pub open spec fn in_comment(f: u8) -> bool {
    f & COMMENT != 0
}

/// A backslash, a quote or a `$( .. )` process is open.
pub open spec fn busy(f: u8) -> bool {
    f & ((BACKSLASH + PROCESS_TWO + SINGLE_QUOTE + DOUBLE_QUOTE) as u8) != 0
}

/// What holds of every state the scanner reaches on `text`.
pub open spec fn scan_invariant(text: Seq<char>, st: ScanState) -> bool {
    &&& st.end <= text.len()
    &&& st.white <= st.end
    &&& st.start <= st.end + 1
    &&& st.start == st.end + 1 ==> st.end == text.len()
    &&& !in_comment(st.flags) && st.start < st.end ==> !is_blank(text[st.start as int])
    &&& !in_comment(st.flags) && busy(st.flags) ==> st.start != st.end
    &&& in_comment(st.flags) ==> !busy(st.flags)
}

/// The facts about the flag bits that the scanner's transitions rely on.
proof fn lemma_flag_bits(f: u8)
    by (bit_vector)
    ensures
        f & COMMENT == 0 ==> ((f ^ BACKSLASH) & (255 ^ WHITESPACE)) & COMMENT == 0,
        f & COMMENT == 0 ==> ((f | BACKSLASH) & (255 ^ WHITESPACE)) & COMMENT == 0,
        f & COMMENT == 0 ==> ((f ^ SINGLE_QUOTE) & (255 ^ WHITESPACE)) & COMMENT == 0,
        f & COMMENT == 0 ==> ((f ^ DOUBLE_QUOTE) & (255 ^ WHITESPACE)) & COMMENT == 0,
        f & COMMENT == 0 ==> (((f | PROCESS_ONE) & (255 ^ PROCESS_ZERO)) & (255 ^ WHITESPACE)) & COMMENT == 0,
        f & COMMENT == 0 ==> (((f | PROCESS_TWO) & (255 ^ PROCESS_ONE)) & (255 ^ WHITESPACE)) & COMMENT == 0,
        f & COMMENT == 0 ==> (((f | PROCESS_ZERO) & (255 ^ PROCESS_TWO)) & (255 ^ WHITESPACE)) & COMMENT == 0,
        f & COMMENT == 0 ==> (((f | PROCESS_ZERO) & (255 ^ 192u8)) & (255 ^ WHITESPACE)) & COMMENT == 0,
        f & COMMENT == 0 ==> (f & (255 ^ WHITESPACE)) & COMMENT == 0,
        f & COMMENT == 0 ==> (f | WHITESPACE) & COMMENT == 0,
        (f & BACKSLASH == 0 && f & 134u8 == 0) ==> (f | WHITESPACE) & 135u8 == 0,
        (f & BACKSLASH == 0 && f & 134u8 == 0) ==> (f | COMMENT) & 135u8 == 0,
        (f & BACKSLASH == 0 && f & 134u8 == 0) ==> ((f | COMMENT) & (255 ^ WHITESPACE)) & 135u8 == 0,
        (f | COMMENT) & COMMENT != 0,
        ((f | COMMENT) & (255 ^ WHITESPACE)) & COMMENT != 0,
        f & 135u8 == 0 ==> (f & (255 ^ COMMENT)) & 135u8 == 0,
        (f & (255 ^ COMMENT)) & COMMENT == 0,
        f & 135u8 == 0 ==> f & 134u8 == 0,
        f & 135u8 == 0 ==> f & BACKSLASH == 0,
        f & BACKSLASH != 0 ==> f & 135u8 != 0,
        f & 134u8 != 0 ==> f & 135u8 != 0,
        48u8 & COMMENT != 0,
        48u8 & 135u8 == 0,
        PROCESS_ZERO & COMMENT == 0,
        PROCESS_ZERO & 135u8 == 0,
{
}

/// One step keeps the invariant, moves `end` by one, never moves `start`
/// back, and hands out only a piece with content that lies between the old
/// and the new `start`.
proof fn lemma_step(text: Seq<char>, st: ScanState)
    requires
        text.len() < usize::MAX,
        scan_invariant(text, st),
        st.end < text.len(),
    ensures
        scan_invariant(text, scan_step(text, st).0),
        scan_step(text, st).0.end == st.end + 1,
        st.start <= scan_step(text, st).0.start,
        scan_step(text, st).1 matches Some((a, b)) ==> {
            &&& st.start <= a < b <= scan_step(text, st).0.start
            &&& b <= text.len()
            &&& has_content(text.subrange(a as int, b as int))
        },
{
    lemma_flag_bits(st.flags);
    let (next, piece) = scan_step(text, st);
    if let Some((a, b)) = piece {
        assert(text.subrange(a as int, b as int)[0] == text[a as int]);
    }
}

/// Reading on keeps the invariant and the order of the pieces: a piece lies
/// between the old and the new `start`, has content, and when none is handed
/// out the whole text has been read.
pub proof fn lemma_scan(text: Seq<char>, st: ScanState)
    requires
        text.len() < usize::MAX,
        scan_invariant(text, st),
    ensures
        scan_invariant(text, scan(text, st).0),
        st.start <= scan(text, st).0.start,
        st.end <= scan(text, st).0.end,
        scan(text, st).1 matches Some((a, b)) ==> {
            &&& st.start <= a < b <= scan(text, st).0.start
            &&& b <= text.len()
            &&& has_content(text.subrange(a as int, b as int))
        },
        scan(text, st).1 is None ==> scan(text, st).0.end == text.len(),
    decreases text.len() - st.end,
{
    if st.end < text.len() && st.end < usize::MAX {
        lemma_step(text, st);
        let (next, piece) = scan_step(text, st);
        if piece is None {
            lemma_scan(text, next);
        }
    } else {
        let (done, piece) = scan_finish(text, st);
        if let Some((a, b)) = piece {
            assert(a < b);
        }
    }
}

/// The scan starts in a state that satisfies its invariant.
pub proof fn lemma_initial_invariant(text: Seq<char>)
    requires
        text.len() > 0,
    ensures
        scan_invariant(text, initial_state(text)),
{
    lemma_flag_bits(PROCESS_ZERO);
    lemma_flag_bits(48u8);
    assert(initial_state(text).flags == 48u8 || initial_state(text).flags == PROCESS_ZERO);
}

/// When reading on hands out nothing, finishing again from where it stopped
/// hands out nothing and changes nothing.
proof fn lemma_scan_none_settles(text: Seq<char>, st: ScanState)
    requires
        text.len() < usize::MAX,
        scan_invariant(text, st),
        scan(text, st).1 is None,
    ensures
        scan_finish(text, scan(text, st).0) == (scan(text, st).0, None::<(usize, usize)>),
    decreases text.len() - st.end,
{
    if st.end < text.len() && st.end < usize::MAX {
        lemma_step(text, st);
        lemma_scan_none_settles(text, scan_step(text, st).0);
    }
}

/// Once the iterator has answered `None`, every later call answers `None`
/// again and leaves the state as it is.
pub proof fn law_exhausted_stays_exhausted(text: Seq<char>, st: ScanState)
    requires
        text.len() < usize::MAX,
        scan_invariant(text, st),
        scan(text, st).1 is None,
    ensures
        scan(text, scan(text, st).0) == (scan(text, st).0, None::<(usize, usize)>),
{
    lemma_scan(text, st);
    lemma_scan_none_settles(text, st);
}

/// Over blank text, outside comments, quotes, escapes and processes, reading
/// on hands out nothing.
proof fn lemma_blank_rest(text: Seq<char>, st: ScanState)
    requires
        text.len() < usize::MAX,
        scan_invariant(text, st),
        !in_comment(st.flags),
        !busy(st.flags),
        forall|i: int| 0 <= i < text.len() ==> is_blank(#[trigger] text[i]),
    ensures
        scan(text, st).1 is None,
    decreases text.len() - st.end,
{
    lemma_flag_bits(st.flags);
    if st.end < text.len() && st.end < usize::MAX {
        lemma_step(text, st);
        let (next, piece) = scan_step(text, st);
        lemma_flag_bits(next.flags);
        lemma_blank_rest(text, next);
    } else if st.flags & COMMENT == 0 && text.len() > st.start {
        let rest = text.subrange(st.start as int, text.len() as int);
        assert forall|i: int| 0 <= i < rest.len() implies is_blank(#[trigger] rest[i]) by {
            assert(rest[i] == text[st.start + i]);
        }
    }
}

/// A script of blanks alone holds no pipeline.
pub proof fn law_blank_script_has_no_pipelines(text: Seq<char>)
    requires
        text.len() < usize::MAX,
        forall|i: int| 0 <= i < text.len() ==> is_blank(#[trigger] text[i]),
    ensures
        scan(text, initial_state(text)).1 is None,
{
    lemma_flag_bits(PROCESS_ZERO);
    if text.len() > 0 {
        assert(is_blank(text[0]));
    }
    lemma_blank_rest(text, initial_state(text));
}

/// Inside an open comment that no newline ends, reading on hands out nothing.
proof fn lemma_comment_rest(text: Seq<char>, st: ScanState)
    requires
        text.len() < usize::MAX,
        scan_invariant(text, st),
        in_comment(st.flags),
        forall|i: int| 0 <= i < text.len() ==> #[trigger] text[i] != '\n',
    ensures
        scan(text, st).1 is None,
    decreases text.len() - st.end,
{
    if st.end < text.len() && st.end < usize::MAX {
        lemma_step(text, st);
        lemma_comment_rest(text, scan_step(text, st).0);
    }
}

/// A script that starts with `#` and holds no newline is a comment alone and
/// holds no pipeline.
pub proof fn law_lone_comment_has_no_pipelines(text: Seq<char>)
    requires
        text.len() < usize::MAX,
        text.len() > 0,
        text[0] == '#',
        forall|i: int| 0 <= i < text.len() ==> #[trigger] text[i] != '\n',
    ensures
        scan(text, initial_state(text)).1 is None,
{
    lemma_flag_bits(48u8);
    assert(initial_state(text).flags == 48u8);
    lemma_comment_rest(text, initial_state(text));
}

/// The flag values that the scanner takes on a plain command with one quoted
/// argument: 32 outside quotes, 40 after a blank, 36 inside double quotes and
/// 34 inside single quotes; each transition they take.
proof fn lemma_plain_flags()
    by (bit_vector)
    ensures
        PROCESS_ZERO == 32u8,
        32u8 & COMMENT == 0,
        34u8 & COMMENT == 0,
        36u8 & COMMENT == 0,
        40u8 & COMMENT == 0,
        32u8 & BACKSLASH == 0,
        34u8 & BACKSLASH == 0,
        36u8 & BACKSLASH == 0,
        40u8 & BACKSLASH == 0,
        32u8 & (PROCESS_TWO + DOUBLE_QUOTE) as u8 == 0,
        34u8 & (PROCESS_TWO + DOUBLE_QUOTE) as u8 == 0,
        36u8 & (PROCESS_TWO + DOUBLE_QUOTE) as u8 != 0,
        40u8 & (PROCESS_TWO + DOUBLE_QUOTE) as u8 == 0,
        32u8 & (PROCESS_TWO + SINGLE_QUOTE) as u8 == 0,
        34u8 & (PROCESS_TWO + SINGLE_QUOTE) as u8 != 0,
        36u8 & (PROCESS_TWO + SINGLE_QUOTE) as u8 == 0,
        40u8 & (PROCESS_TWO + SINGLE_QUOTE) as u8 == 0,
        32u8 & SINGLE_QUOTE == 0,
        34u8 & SINGLE_QUOTE != 0,
        36u8 & SINGLE_QUOTE == 0,
        40u8 & SINGLE_QUOTE == 0,
        32u8 & PROCESS_ONE == 0,
        34u8 & PROCESS_ONE == 0,
        36u8 & PROCESS_ONE == 0,
        40u8 & PROCESS_ONE == 0,
        32u8 & PROCESS_TWO == 0,
        34u8 & PROCESS_TWO == 0,
        36u8 & PROCESS_TWO == 0,
        40u8 & PROCESS_TWO == 0,
        32u8 & (PROCESS_TWO + SINGLE_QUOTE + DOUBLE_QUOTE) as u8 == 0,
        34u8 & (PROCESS_TWO + SINGLE_QUOTE + DOUBLE_QUOTE) as u8 != 0,
        36u8 & (PROCESS_TWO + SINGLE_QUOTE + DOUBLE_QUOTE) as u8 != 0,
        40u8 & (PROCESS_TWO + SINGLE_QUOTE + DOUBLE_QUOTE) as u8 == 0,
        32u8 & WHITESPACE == 0,
        40u8 & WHITESPACE != 0,
        32u8 | WHITESPACE == 40u8,
        40u8 | WHITESPACE == 40u8,
        (40u8 ^ SINGLE_QUOTE) & (255 ^ WHITESPACE) == 34u8,
        (40u8 ^ DOUBLE_QUOTE) & (255 ^ WHITESPACE) == 36u8,
        (34u8 ^ SINGLE_QUOTE) & (255 ^ WHITESPACE) == 32u8,
        (36u8 ^ DOUBLE_QUOTE) & (255 ^ WHITESPACE) == 32u8,
        ((32u8 | PROCESS_ZERO) & (255 ^ (PROCESS_ONE + PROCESS_TWO) as u8)) & (255 ^ WHITESPACE)
            == 32u8,
        ((34u8 | PROCESS_ZERO) & (255 ^ (PROCESS_ONE + PROCESS_TWO) as u8)) & (255 ^ WHITESPACE)
            == 34u8,
        ((36u8 | PROCESS_ZERO) & (255 ^ (PROCESS_ONE + PROCESS_TWO) as u8)) & (255 ^ WHITESPACE)
            == 36u8,
        ((40u8 | PROCESS_ZERO) & (255 ^ (PROCESS_ONE + PROCESS_TWO) as u8)) & (255 ^ WHITESPACE)
            == 32u8,
{
}

/// A character that stays plain inside quotes opened by `q`: not that quote,
/// no backslash and no `$`.
pub open spec fn quotable(c: char, q: char) -> bool {
    c != q && c != '\\' && c != '$'
}

/// A character of a bare word that neither separates, quotes, escapes,
/// comments nor opens a process.
pub open spec fn bare(c: char) -> bool {
    !is_blank(c) && c != ';' && c != '#' && c != '"' && c != '\'' && c != '\\' && c != '$'
}

/// The flags inside quotes opened by `q`.
pub open spec fn quoted_flags(q: char) -> u8 {
    if q == '"' { 36u8 } else { 34u8 }
}

/// Inside quotes opened by `q`, a run of quotable characters changes nothing but `end`.
proof fn lemma_quoted_run(text: Seq<char>, i: int, j: int, q: char)
    requires
        q == '"' || q == '\'',
        0 <= i <= j < text.len(),
        text.len() < usize::MAX,
        forall|k: int| i <= k < j ==> quotable(#[trigger] text[k], q),
    ensures
        scan(text, ScanState { flags: quoted_flags(q), start: 0, end: i as usize, white: 0 }) == scan(
            text,
            ScanState { flags: quoted_flags(q), start: 0, end: j as usize, white: 0 },
        ),
    decreases j - i,
{
    lemma_plain_flags();
    if i < j {
        let st = ScanState { flags: quoted_flags(q), start: 0, end: i as usize, white: 0 };
        assert(quotable(text[i], q));
        assert(scan_step(text, st) == (
            ScanState { flags: quoted_flags(q), start: 0, end: (i + 1) as usize, white: 0 },
            None::<(usize, usize)>,
        ));
        lemma_quoted_run(text, i + 1, j, q);
    }
}

/// Outside quotes, a run of bare characters changes nothing but `end`.
proof fn lemma_bare_run(text: Seq<char>, a: usize, i: int)
    requires
        0 <= i <= text.len(),
        text.len() < usize::MAX,
        forall|k: int| i <= k < text.len() ==> bare(#[trigger] text[k]),
    ensures
        scan(text, ScanState { flags: 32u8, start: a, end: i as usize, white: 0 }) == scan_finish(
            text,
            ScanState { flags: 32u8, start: a, end: text.len() as usize, white: 0 },
        ),
    decreases text.len() - i,
{
    lemma_plain_flags();
    if i < text.len() {
        let st = ScanState { flags: 32u8, start: a, end: i as usize, white: 0 };
        assert(bare(text[i]));
        assert(scan_step(text, st) == (
            ScanState { flags: 32u8, start: a, end: (i + 1) as usize, white: 0 },
            None::<(usize, usize)>,
        ));
        lemma_bare_run(text, a, i + 1);
    }
}

/// A quote of the other kind inside quotes leaves the quoting alone: the
/// script `echo "I"; Z`, or `echo 'I'; Z`, where `I` holds neither the
/// enclosing quote, a backslash nor `$` (and so may hold the other quote,
/// blanks, `;` and `#`), and `Z` is a non-empty bare word, splits into
/// exactly the two pieces `echo "I"` and `Z`, and then into nothing.
pub proof fn law_other_quote_inside_quotes_is_plain(inner: Seq<char>, z: Seq<char>, q: char)
    requires
        q == '"' || q == '\'',
        forall|k: int| 0 <= k < inner.len() ==> quotable(#[trigger] inner[k], q),
        z.len() > 0,
        forall|k: int| 0 <= k < z.len() ==> bare(#[trigger] z[k]),
        inner.len() + z.len() + 9 < usize::MAX,
    ensures
        ({
            let s = seq!['e', 'c', 'h', 'o', ' ', q] + inner + seq![q, ';', ' '] + z;
            let first = scan(s, initial_state(s));
            let second = scan(s, first.0);
            &&& first.1 == Some((0usize, (inner.len() + 7) as usize))
            &&& s.subrange(0, inner.len() + 7int) == seq!['e', 'c', 'h', 'o', ' ', q] + inner + seq![q]
            &&& second.1 == Some(((inner.len() + 9) as usize, s.len() as usize))
            &&& s.subrange(inner.len() + 9int, s.len() as int) == z
            &&& scan(s, second.0).1 is None
        }),
{
    lemma_plain_flags();
    let s = seq!['e', 'c', 'h', 'o', ' ', q] + inner + seq![q, ';', ' '] + z;
    let m = inner.len() as int;
    let n = s.len() as int;
    assert(s[0] == 'e');
    assert(s[1] == 'c');
    assert(s[2] == 'h');
    assert(s[3] == 'o');
    assert(s[4] == ' ');
    assert(s[5] == q);
    assert(s[6 + m] == q);
    assert(s[7 + m] == ';');
    assert(s[8 + m] == ' ');
    assert forall|k: int| 6 <= k < 6 + m implies quotable(#[trigger] s[k], q) by {
        assert(s[k] == inner[k - 6]);
    }
    assert forall|k: int| 9 + m <= k < n implies bare(#[trigger] s[k]) by {
        assert(s[k] == z[k - 9 - m]);
    }
    let init = initial_state(s);
    assert(init == ScanState { flags: 32u8, start: 0, end: 0, white: 0 });
    let s1 = ScanState { flags: 32u8, start: 0, end: 1, white: 0 };
    let s2 = ScanState { flags: 32u8, start: 0, end: 2, white: 0 };
    let s3 = ScanState { flags: 32u8, start: 0, end: 3, white: 0 };
    let s4 = ScanState { flags: 32u8, start: 0, end: 4, white: 0 };
    let s5 = ScanState { flags: 40u8, start: 0, end: 5, white: 4 };
    let s6 = ScanState { flags: quoted_flags(q), start: 0, end: 6, white: 0 };
    assert(scan_step(s, init) == (s1, None::<(usize, usize)>));
    assert(scan_step(s, s1) == (s2, None::<(usize, usize)>));
    assert(scan_step(s, s2) == (s3, None::<(usize, usize)>));
    assert(scan_step(s, s3) == (s4, None::<(usize, usize)>));
    assert(scan_step(s, s4) == (s5, None::<(usize, usize)>));
    assert(scan_step(s, s5) == (s6, None::<(usize, usize)>));
    lemma_quoted_run(s, 6, 6 + m, q);
    let close = ScanState { flags: quoted_flags(q), start: 0, end: (6 + m) as usize, white: 0 };
    let after_close = ScanState { flags: 32u8, start: 0, end: (7 + m) as usize, white: 0 };
    assert(scan_step(s, close) == (after_close, None::<(usize, usize)>));
    let split = ScanState {
        flags: 40u8,
        start: (8 + m) as usize,
        end: (8 + m) as usize,
        white: (7 + m) as usize,
    };
    assert(s.subrange(0, 7 + m)[0] == 'e');
    assert(scan_step(s, after_close) == (split, Some((0usize, (7 + m) as usize))));
    assert(scan(s, after_close) == (split, Some((0usize, (7 + m) as usize))));
    assert(scan(s, close) == scan(s, after_close));
    assert(scan(s, s5) == scan(s, s6));
    assert(scan(s, s4) == scan(s, s5));
    assert(scan(s, s3) == scan(s, s4));
    assert(scan(s, s2) == scan(s, s3));
    assert(scan(s, s1) == scan(s, s2));
    assert(scan(s, init) == scan(s, s1));
    assert(scan(s, init) == (split, Some((0usize, (7 + m) as usize))));
    assert(s.subrange(0, 7 + m) =~= seq!['e', 'c', 'h', 'o', ' ', q] + inner + seq![q]);
    let word = ScanState {
        flags: 40u8,
        start: (9 + m) as usize,
        end: (9 + m) as usize,
        white: (7 + m) as usize,
    };
    assert(scan_step(s, split) == (word, None::<(usize, usize)>));
    assert(bare(s[9 + m]));
    let in_word = ScanState { flags: 32u8, start: (9 + m) as usize, end: (10 + m) as usize, white: 0 };
    assert(scan_step(s, word) == (in_word, None::<(usize, usize)>));
    lemma_bare_run(s, (9 + m) as usize, 10 + m);
    let at_end = ScanState { flags: 32u8, start: (9 + m) as usize, end: n as usize, white: 0 };
    assert(s.subrange(9 + m, n)[0] == s[9 + m]);
    let done = ScanState { flags: 32u8, start: (n + 1) as usize, end: n as usize, white: 0 };
    assert(scan_finish(s, at_end) == (done, Some(((9 + m) as usize, n as usize))));
    assert(scan(s, word) == scan(s, in_word));
    assert(scan(s, split) == scan(s, word));
    assert(scan(s, split) == (done, Some(((9 + m) as usize, n as usize))));
    assert(s.subrange(9 + m, n) =~= z);
    assert(scan(s, done) == scan_finish(s, done));
}

/// The flag values that the scanner takes on a comment after a word, a
/// `$( .. )` process and a backslash; each transition they take.
proof fn lemma_more_flags()
    by (bit_vector)
    ensures
        40u8 | COMMENT == 56u8,
        56u8 & COMMENT != 0,
        40u8 & (PROCESS_TWO + SINGLE_QUOTE + DOUBLE_QUOTE) as u8 == 0,
        40u8 & WHITESPACE != 0,
        40u8 & SINGLE_QUOTE == 0,
        40u8 & PROCESS_ZERO != 0,
        ((40u8 | PROCESS_ONE) & (255 ^ PROCESS_ZERO)) & (255 ^ WHITESPACE) == 64u8,
        64u8 & COMMENT == 0,
        64u8 & BACKSLASH == 0,
        64u8 & SINGLE_QUOTE == 0,
        64u8 & PROCESS_ONE != 0,
        64u8 & (PROCESS_TWO + DOUBLE_QUOTE) as u8 == 0,
        64u8 & (PROCESS_TWO + SINGLE_QUOTE) as u8 == 0,
        64u8 & PROCESS_ZERO == 0,
        ((64u8 | PROCESS_TWO) & (255 ^ PROCESS_ONE)) & (255 ^ WHITESPACE) == 128u8,
        128u8 & COMMENT == 0,
        128u8 & BACKSLASH == 0,
        128u8 & SINGLE_QUOTE == 0,
        128u8 & PROCESS_ZERO == 0,
        128u8 & PROCESS_ONE == 0,
        128u8 & PROCESS_TWO != 0,
        128u8 & (PROCESS_TWO + DOUBLE_QUOTE) as u8 != 0,
        128u8 & (PROCESS_TWO + SINGLE_QUOTE) as u8 != 0,
        128u8 & (PROCESS_TWO + SINGLE_QUOTE + DOUBLE_QUOTE) as u8 != 0,
        128u8 & (255 ^ WHITESPACE) == 128u8,
        ((128u8 | PROCESS_ZERO) & (255 ^ PROCESS_TWO)) & (255 ^ WHITESPACE) == 32u8,
        (32u8 | BACKSLASH) & (255 ^ WHITESPACE) == 33u8,
        33u8 & COMMENT == 0,
        33u8 & BACKSLASH != 0,
        (33u8 ^ BACKSLASH) & (255 ^ WHITESPACE) == 32u8,
{
}

/// Outside quotes, a run of bare characters moves `end` over it.
proof fn lemma_bare_span(text: Seq<char>, a: usize, i: int, j: int)
    requires
        0 <= i <= j <= text.len(),
        text.len() < usize::MAX,
        forall|k: int| i <= k < j ==> bare(#[trigger] text[k]),
    ensures
        scan(text, ScanState { flags: 32u8, start: a, end: i as usize, white: 0 }) == scan(
            text,
            ScanState { flags: 32u8, start: a, end: j as usize, white: 0 },
        ),
    decreases j - i,
{
    lemma_plain_flags();
    if i < j {
        let st = ScanState { flags: 32u8, start: a, end: i as usize, white: 0 };
        assert(bare(text[i]));
        assert(scan_step(text, st) == (
            ScanState { flags: 32u8, start: a, end: (i + 1) as usize, white: 0 },
            None::<(usize, usize)>,
        ));
        lemma_bare_span(text, a, i + 1, j);
    }
}

/// Inside a `$( .. )` process, a run without `)` or backslash moves `end` over it.
proof fn lemma_process_span(text: Seq<char>, i: int, j: int)
    requires
        0 <= i <= j <= text.len(),
        text.len() < usize::MAX,
        forall|k: int| i <= k < j ==> #[trigger] text[k] != ')' && text[k] != '\\',
    ensures
        scan(text, ScanState { flags: 128u8, start: 0, end: i as usize, white: 0 }) == scan(
            text,
            ScanState { flags: 128u8, start: 0, end: j as usize, white: 0 },
        ),
    decreases j - i,
{
    lemma_more_flags();
    if i < j {
        let st = ScanState { flags: 128u8, start: 0, end: i as usize, white: 0 };
        assert(text[i] != ')' && text[i] != '\\');
        assert(scan_step(text, st) == (
            ScanState { flags: 128u8, start: 0, end: (i + 1) as usize, white: 0 },
            None::<(usize, usize)>,
        ));
        lemma_process_span(text, i + 1, j);
    }
}

/// Inside a comment, a run without newline hands out nothing.
proof fn lemma_comment_span(text: Seq<char>, st: ScanState)
    requires
        st.flags == 56u8,
        st.end <= text.len(),
        text.len() < usize::MAX,
        forall|k: int| st.end <= k < text.len() ==> #[trigger] text[k] != '\n',
    ensures
        scan(text, st).1 is None,
    decreases text.len() - st.end,
{
    lemma_more_flags();
    if st.end < text.len() {
        assert(text[st.end as int] != '\n');
        lemma_comment_span(text, ScanState { flags: 56u8, start: st.start, end: (st.end + 1) as usize, white: st.white });
    }
}

/// A comment after a word ends the piece: the script `W #C`, with `W` a
/// non-empty bare word and `C` free of newlines, yields exactly the piece `W`.
pub proof fn law_comment_after_word(w: Seq<char>, c: Seq<char>)
    requires
        w.len() > 0,
        forall|k: int| 0 <= k < w.len() ==> bare(#[trigger] w[k]),
        forall|k: int| 0 <= k < c.len() ==> #[trigger] c[k] != '\n',
        w.len() + c.len() + 2 < usize::MAX,
    ensures
        ({
            let s = w + seq![' ', '#'] + c;
            let first = scan(s, initial_state(s));
            &&& first.1 == Some((0usize, w.len() as usize))
            &&& s.subrange(0, w.len() as int) == w
            &&& scan(s, first.0).1 is None
        }),
{
    lemma_plain_flags();
    lemma_more_flags();
    let s = w + seq![' ', '#'] + c;
    let m = w.len() as int;
    let n = s.len() as int;
    assert forall|k: int| 0 <= k < m implies bare(#[trigger] s[k]) by {
        assert(s[k] == w[k]);
    }
    assert forall|k: int| m + 2 <= k < n implies #[trigger] s[k] != '\n' by {
        assert(s[k] == c[k - m - 2]);
    }
    assert(s[0] == w[0]);
    assert(s[m] == ' ');
    assert(s[m + 1] == '#');
    let init = initial_state(s);
    assert(init == ScanState { flags: 32u8, start: 0, end: 0, white: 0 });
    lemma_bare_span(s, 0, 0, m);
    let at_blank = ScanState { flags: 32u8, start: 0, end: m as usize, white: 0 };
    let at_hash = ScanState { flags: 40u8, start: 0, end: (m + 1) as usize, white: m as usize };
    assert(scan_step(s, at_blank) == (at_hash, None::<(usize, usize)>));
    let in_comment = ScanState {
        flags: 56u8,
        start: (m + 2) as usize,
        end: (m + 2) as usize,
        white: m as usize,
    };
    assert(scan_step(s, at_hash) == (in_comment, Some((0usize, m as usize))));
    assert(scan(s, at_blank) == scan(s, at_hash));
    assert(scan(s, init) == (in_comment, Some((0usize, m as usize))));
    assert(s.subrange(0, m) =~= w);
    lemma_comment_span(s, in_comment);
}

/// Separators inside a `$( .. )` process do not split: the script
/// `echo $(X); Z`, with `X` free of `)` and backslashes and `Z` a non-empty
/// bare word, yields exactly the pieces `echo $(X)` and `Z`.
pub proof fn law_process_keeps_separators(x: Seq<char>, z: Seq<char>)
    requires
        forall|k: int| 0 <= k < x.len() ==> #[trigger] x[k] != ')' && x[k] != '\\',
        z.len() > 0,
        forall|k: int| 0 <= k < z.len() ==> bare(#[trigger] z[k]),
        x.len() + z.len() + 10 < usize::MAX,
    ensures
        ({
            let s = seq!['e', 'c', 'h', 'o', ' ', '$', '('] + x + seq![')', ';', ' '] + z;
            let first = scan(s, initial_state(s));
            let second = scan(s, first.0);
            &&& first.1 == Some((0usize, (x.len() + 8) as usize))
            &&& s.subrange(0, x.len() + 8int) == seq!['e', 'c', 'h', 'o', ' ', '$', '('] + x + seq![')']
            &&& second.1 == Some(((x.len() + 10) as usize, s.len() as usize))
            &&& s.subrange(x.len() + 10int, s.len() as int) == z
            &&& scan(s, second.0).1 is None
        }),
{
    lemma_plain_flags();
    lemma_more_flags();
    let s = seq!['e', 'c', 'h', 'o', ' ', '$', '('] + x + seq![')', ';', ' '] + z;
    let m = x.len() as int;
    let n = s.len() as int;
    assert forall|k: int| 0 <= k < 4 implies bare(#[trigger] s[k]) by {}
    assert(s[4] == ' ');
    assert(s[5] == '$');
    assert(s[6] == '(');
    assert forall|k: int| 7 <= k < 7 + m implies #[trigger] s[k] != ')' && s[k] != '\\' by {
        assert(s[k] == x[k - 7]);
    }
    assert(s[7 + m] == ')');
    assert(s[8 + m] == ';');
    assert(s[9 + m] == ' ');
    assert forall|k: int| 10 + m <= k < n implies bare(#[trigger] s[k]) by {
        assert(s[k] == z[k - 10 - m]);
    }
    let init = initial_state(s);
    assert(init == ScanState { flags: 32u8, start: 0, end: 0, white: 0 });
    lemma_bare_span(s, 0, 0, 4);
    let s4 = ScanState { flags: 32u8, start: 0, end: 4, white: 0 };
    let s5 = ScanState { flags: 40u8, start: 0, end: 5, white: 4 };
    let s6 = ScanState { flags: 64u8, start: 0, end: 6, white: 0 };
    let s7 = ScanState { flags: 128u8, start: 0, end: 7, white: 0 };
    assert(scan_step(s, s4) == (s5, None::<(usize, usize)>));
    assert(scan_step(s, s5) == (s6, None::<(usize, usize)>));
    assert(scan_step(s, s6) == (s7, None::<(usize, usize)>));
    lemma_process_span(s, 7, 7 + m);
    let close = ScanState { flags: 128u8, start: 0, end: (7 + m) as usize, white: 0 };
    let after_close = ScanState { flags: 32u8, start: 0, end: (8 + m) as usize, white: 0 };
    assert(scan_step(s, close) == (after_close, None::<(usize, usize)>));
    let split = ScanState {
        flags: 40u8,
        start: (9 + m) as usize,
        end: (9 + m) as usize,
        white: (8 + m) as usize,
    };
    assert(s.subrange(0, 8 + m)[0] == 'e');
    assert(scan_step(s, after_close) == (split, Some((0usize, (8 + m) as usize))));
    assert(scan(s, after_close) == (split, Some((0usize, (8 + m) as usize))));
    assert(scan(s, close) == scan(s, after_close));
    assert(scan(s, s6) == scan(s, s7));
    assert(scan(s, s5) == scan(s, s6));
    assert(scan(s, s4) == scan(s, s5));
    assert(scan(s, init) == (split, Some((0usize, (8 + m) as usize))));
    assert(s.subrange(0, 8 + m) =~= seq!['e', 'c', 'h', 'o', ' ', '$', '('] + x + seq![')']);
    let word = ScanState {
        flags: 40u8,
        start: (10 + m) as usize,
        end: (10 + m) as usize,
        white: (8 + m) as usize,
    };
    assert(scan_step(s, split) == (word, None::<(usize, usize)>));
    assert(bare(s[10 + m]));
    let in_word = ScanState { flags: 32u8, start: (10 + m) as usize, end: (11 + m) as usize, white: 0 };
    assert(scan_step(s, word) == (in_word, None::<(usize, usize)>));
    lemma_bare_run(s, (10 + m) as usize, 11 + m);
    let at_end = ScanState { flags: 32u8, start: (10 + m) as usize, end: n as usize, white: 0 };
    assert(s.subrange(10 + m, n)[0] == s[10 + m]);
    let done = ScanState { flags: 32u8, start: (n + 1) as usize, end: n as usize, white: 0 };
    assert(scan_finish(s, at_end) == (done, Some(((10 + m) as usize, n as usize))));
    assert(scan(s, word) == scan(s, in_word));
    assert(scan(s, split) == scan(s, word));
    assert(scan(s, split) == (done, Some(((10 + m) as usize, n as usize))));
    assert(s.subrange(10 + m, n) =~= z);
    assert(scan(s, done) == scan_finish(s, done));
}

/// A backslash protects the separator after it: the script `A\;B`, with `A`
/// and `B` bare words and `A` non-empty, is one piece, the whole script.
pub proof fn law_escaped_separator_does_not_split(a: Seq<char>, b: Seq<char>)
    requires
        a.len() > 0,
        forall|k: int| 0 <= k < a.len() ==> bare(#[trigger] a[k]),
        forall|k: int| 0 <= k < b.len() ==> bare(#[trigger] b[k]),
        a.len() + b.len() + 2 < usize::MAX,
    ensures
        ({
            let s = a + seq!['\\', ';'] + b;
            let first = scan(s, initial_state(s));
            &&& first.1 == Some((0usize, s.len() as usize))
            &&& scan(s, first.0).1 is None
        }),
{
    lemma_plain_flags();
    lemma_more_flags();
    let s = a + seq!['\\', ';'] + b;
    let m = a.len() as int;
    let n = s.len() as int;
    assert forall|k: int| 0 <= k < m implies bare(#[trigger] s[k]) by {
        assert(s[k] == a[k]);
    }
    assert forall|k: int| m + 2 <= k < n implies bare(#[trigger] s[k]) by {
        assert(s[k] == b[k - m - 2]);
    }
    assert(s[0] == a[0]);
    assert(s[m] == '\\');
    assert(s[m + 1] == ';');
    let init = initial_state(s);
    assert(init == ScanState { flags: 32u8, start: 0, end: 0, white: 0 });
    lemma_bare_span(s, 0, 0, m);
    let at_slash = ScanState { flags: 32u8, start: 0, end: m as usize, white: 0 };
    let escaped = ScanState { flags: 33u8, start: 0, end: (m + 1) as usize, white: 0 };
    let after = ScanState { flags: 32u8, start: 0, end: (m + 2) as usize, white: 0 };
    assert(scan_step(s, at_slash) == (escaped, None::<(usize, usize)>));
    assert(scan_step(s, escaped) == (after, None::<(usize, usize)>));
    lemma_bare_run(s, 0, m + 2);
    let at_end = ScanState { flags: 32u8, start: 0, end: n as usize, white: 0 };
    assert(s.subrange(0, n)[0] == s[0]);
    let done = ScanState { flags: 32u8, start: (n + 1) as usize, end: n as usize, white: 0 };
    assert(scan_finish(s, at_end) == (done, Some((0usize, n as usize))));
    assert(scan(s, escaped) == scan(s, after));
    assert(scan(s, at_slash) == scan(s, escaped));
    assert(scan(s, init) == (done, Some((0usize, n as usize))));
    assert(scan(s, done) == scan_finish(s, done));
}

/// Whether `text[a..b]` holds a character that is not blank.
fn has_content_between(text: &Vec<char>, a: usize, b: usize) -> (r: bool)
    requires
        a <= b <= text@.len(),
    ensures
        r == has_content(text@.subrange(a as int, b as int)),
{
    let mut i = a;
    while i < b
        invariant
            a <= i <= b <= text@.len(),
            forall|k: int| a <= k < i ==> is_blank(#[trigger] text@[k]),
        decreases b - i,
    {
        let x = text[i];
        if x != ' ' && x != '\n' && x != '\r' && x != '\t' {
            assert(text@.subrange(a as int, b as int)[i - a] == x);
            return true;
        }
        i += 1;
    }
    assert forall|k: int| 0 <= k < text@.subrange(a as int, b as int).len() implies is_blank(
        #[trigger] text@.subrange(a as int, b as int)[k],
    ) by {
        assert(text@.subrange(a as int, b as int)[k] == text@[a + k]);
    }
    false
}

/// Reads the character at `st.end`: the state that follows and the piece
/// handed out at this character, if any.
fn scan_char(text: &Vec<char>, st: ScanState) -> (res: (ScanState, Option<(usize, usize)>))
    requires
        text@.len() < usize::MAX,
        scan_invariant(text@, st),
        st.end < text@.len(),
    ensures
        res == scan_step(text@, st),
{
    let character = text[st.end];
    let mut flags = st.flags;
    let mut start = st.start;
    let mut end = st.end;
    let mut white = st.white;
    if flags & COMMENT != 0 {
        end += 1;
        if character == '\n' {
            flags &= 255 ^ COMMENT;
            start = end;
        }
        return (ScanState { flags, start, end, white }, None);
    }
    match character {
        _ if flags & BACKSLASH != 0 => flags ^= BACKSLASH,
        '\\' => flags |= BACKSLASH,
        '\'' if flags & (PROCESS_TWO + DOUBLE_QUOTE) == 0 => flags ^= SINGLE_QUOTE,
        '"' if flags & (PROCESS_TWO + SINGLE_QUOTE) == 0 => flags ^= DOUBLE_QUOTE,
        '$' if flags & SINGLE_QUOTE == 0 && flags & PROCESS_ZERO != 0 => {
            flags |= PROCESS_ONE;
            flags &= 255 ^ PROCESS_ZERO;
        },
        '(' if flags & SINGLE_QUOTE == 0 && flags & PROCESS_ONE != 0 => {
            flags |= PROCESS_TWO;
            flags &= 255 ^ PROCESS_ONE;
        },
        ')' if flags & SINGLE_QUOTE == 0 && flags & PROCESS_TWO != 0 => {
            flags |= PROCESS_ZERO;
            flags &= 255 ^ PROCESS_TWO;
        },
        '#' if flags & (PROCESS_TWO + SINGLE_QUOTE + DOUBLE_QUOTE) == 0 && flags & WHITESPACE != 0 => {
            if start < white {
                let piece = (start, white);
                start = end + 1;
                flags |= COMMENT;
                end += 1;
                return (ScanState { flags, start, end, white }, Some(piece));
            } else {
                start = end + 1;
                flags |= COMMENT;
            }
        },
        c if (c == ' ' || c == '\t') && flags & (PROCESS_TWO + SINGLE_QUOTE + DOUBLE_QUOTE) == 0 => {
            if start == end {
                start += 1;
            }
            flags |= WHITESPACE;
            if white == 0 {
                white = end;
            }
            end += 1;
            return (ScanState { flags, start, end, white }, None);
        },
        c if (c == ';' || c == '\n' || c == '\r') && flags & (PROCESS_TWO + SINGLE_QUOTE + DOUBLE_QUOTE) == 0 => {
            if start == end {
                start += 1;
                flags |= WHITESPACE;
                if white == 0 {
                    white = end;
                }
            } else {
                let piece = (start, end);
                start = end + 1;
                flags |= WHITESPACE;
                if white == 0 {
                    white = end;
                }
                if has_content_between(text, piece.0, piece.1) {
                    end += 1;
                    return (ScanState { flags, start, end, white }, Some(piece));
                }
            }
            end += 1;
            return (ScanState { flags, start, end, white }, None);
        },
        _ if flags & PROCESS_TWO == 0 => {
            flags |= PROCESS_ZERO;
            flags &= 255 ^ (PROCESS_ONE + PROCESS_TWO);
        },
        _ => {},
    }
    flags &= 255 ^ WHITESPACE;
    white = 0;
    end += 1;
    (ScanState { flags, start, end, white }, None)
}

/// The characters of `s`, in order.
pub fn chars_of(s: &str) -> (chars: Vec<char>)
    ensures
        chars@ == s@,
{
    broadcast use vstd::string::group_string_axioms;

    let mut chars: Vec<char> = Vec::new();
    for c in it: s.chars()
        invariant
            chars@ == it.seq().take(it.index()),
            it.seq() == s@,
    {
        chars.push(c);
    }
    chars
}

/// Splits a script into the text of its pipelines, one piece per call of `next`.
pub struct PipelineIterator<'a> {
    match_str: &'a str,
    chars: Vec<char>,
    state: ScanState,
}

impl<'a> PipelineIterator<'a> {
    /// The script being split.
    pub closed spec fn text(&self) -> Seq<char> {
        self.match_str@
    }

    /// Where the scan stands.
    pub closed spec fn state(&self) -> ScanState {
        self.state
    }

    /// The iterator's fields agree with each other.
    pub closed spec fn wf(&self) -> bool {
        &&& self.chars@ == self.match_str@
        &&& self.chars@.len() < usize::MAX
        &&& scan_invariant(self.chars@, self.state)
    }

    /// A well-formed iterator stands in a state that the scan can reach.
    pub proof fn lemma_wf(&self)
        requires
            self.wf(),
        ensures
            scan_invariant(self.text(), self.state()),
            self.text().len() < usize::MAX,
    {
    }

    /// Starts splitting `match_str`; a leading `#` opens a comment.
    pub fn new(match_str: &'a str) -> (it: PipelineIterator<'a>)
        requires
            match_str@.len() > 0,
            match_str@.len() < usize::MAX,
        ensures
            it.wf(),
            it.text() == match_str@,
            it.state() == initial_state(match_str@),
    {
        let chars = chars_of(match_str);
        let flags = if chars[0] == '#' { COMMENT + PROCESS_ZERO } else { PROCESS_ZERO };
        assert(flags == 48u8 || flags == PROCESS_ZERO);
        proof {
            lemma_flag_bits(flags);
        }
        let state = ScanState { flags: flags, start: 0, end: 0, white: 0 };
        PipelineIterator {
            match_str: match_str,
            chars: chars,
            state: ScanState { flags: flags, start: 0, end: 0, white: 0 },
        }
    }

    /// The rest of the text once every character is read, unless a comment is open.
    fn finish(&mut self) -> (piece: Option<(usize, usize)>)
        requires
            old(self).wf(),
        ensures
            final(self).match_str == old(self).match_str,
            final(self).chars == old(self).chars,
            (final(self).state, piece) == scan_finish(old(self).chars@, old(self).state),
    {
        let n = self.chars.len();
        if self.state.flags & COMMENT == 0 && n > self.state.start {
            let piece = (self.state.start, n);
            self.state.start = n + 1;
            if has_content_between(&self.chars, piece.0, piece.1) {
                Some(piece)
            } else {
                None
            }
        } else {
            None
        }
    }

    /// The next piece of the script between separators, with its position.
    fn next_range(&mut self) -> (piece: Option<(usize, usize)>)
        requires
            old(self).wf(),
        ensures
            final(self).wf(),
            final(self).match_str == old(self).match_str,
            final(self).chars == old(self).chars,
            (final(self).state, piece) == scan(old(self).chars@, old(self).state),
    {
        let n = self.chars.len();
        let ghost text = self.chars@;
        let ghost target = scan(text, self.state);
        proof {
            lemma_scan(text, self.state);
        }
        while self.state.end < n
            invariant
                self.wf(),
                n == self.chars@.len(),
                text == self.chars@,
                self.match_str == old(self).match_str,
                self.chars == old(self).chars,
                scan(text, self.state) == target,
                target == scan(old(self).chars@, old(self).state),
            decreases n - self.state.end,
        {
            proof {
                lemma_step(text, self.state);
            }
            let ghost before = self.state;
            let (st, piece) = scan_char(&self.chars, self.state);
            assert(scan(text, before) == (if piece is Some {
                (st, piece)
            } else {
                scan(text, st)
            }));
            self.state = st;
            if piece.is_some() {
                return piece;
            }
        }
        self.finish()
    }

    /// The next pipeline of the script: the text up to the next `;`, newline or
    /// carriage return that no quote, backslash or `$( .. )` protects, or up to a
    /// comment. Pieces come in order of position, never overlap, and each holds a
    /// character that is not blank.
    pub fn next(&mut self) -> (piece: Option<&'a str>)
        requires
            old(self).wf(),
        ensures
            final(self).wf(),
            final(self).text() == old(self).text(),
            final(self).state() == scan(old(self).text(), old(self).state()).0,
            old(self).state().start <= final(self).state().start,
            match scan(old(self).text(), old(self).state()).1 {
                Some((a, b)) => {
                    &&& piece is Some
                    &&& piece.unwrap()@ == old(self).text().subrange(a as int, b as int)
                    &&& old(self).state().start <= a < b <= final(self).state().start
                    &&& has_content(piece.unwrap()@)
                },
                None => piece is None && final(self).state().end == old(self).text().len(),
            },
    {
        proof {
            lemma_scan(self.chars@, self.state);
        }
        match self.next_range() {
            Some((a, b)) => Some(self.match_str.substring_char(a, b)),
            None => None,
        }
    }
}

} // verus!
