//! The line classifier and the parse driver.

use vstd::prelude::*;

use crate::error::IniParseError;
use crate::text::{
    chars_of, contains_char, dup, find_char_or_comment, find_spec, remove_inline_comment, skip_ws, slice_of,
    strip_comment, text_of, trim, trimmed, views, white_space, is_ws,
};

verus! {

/// Configuration of the grammar.
#[derive(Debug, Clone)]
pub struct ParseOptions {
    /// Indented lines continue the previous key's value.
    pub allow_multiline: bool,
    /// A byte order mark at the start of the first line is skipped.
    pub allow_bom: bool,
    /// A prefix character right after whitespace starts a comment mid-line.
    pub allow_inline_comments: bool,
    /// Characters that start an inline comment.
    pub inline_comment_prefixes: String,
    /// Characters that, first on a line, make the line a comment.
    pub start_comment_prefixes: String,
    /// The first fault ends the parse.
    pub stop_on_first_error: bool,
    /// Kept for callers that set it; section events are always delivered.
    pub call_handler_on_new_section: bool,
    /// A line without separator is a key with an empty value.
    pub allow_no_value: bool,
    /// Longest line accepted, in bytes.
    pub max_line: usize,
}

/// The options as plain values.
pub struct OptionsView {
    pub allow_multiline: bool,
    pub allow_bom: bool,
    pub allow_inline_comments: bool,
    pub inline_comment_prefixes: Seq<char>,
    pub start_comment_prefixes: Seq<char>,
    pub stop_on_first_error: bool,
    pub allow_no_value: bool,
    pub max_line: nat,
}

impl View for ParseOptions {
    type V = OptionsView;

    open spec fn view(&self) -> OptionsView {
        OptionsView {
            allow_multiline: self.allow_multiline,
            allow_bom: self.allow_bom,
            allow_inline_comments: self.allow_inline_comments,
            inline_comment_prefixes: self.inline_comment_prefixes@,
            start_comment_prefixes: self.start_comment_prefixes@,
            stop_on_first_error: self.stop_on_first_error,
            allow_no_value: self.allow_no_value,
            max_line: self.max_line as nat,
        }
    }
}

/// The default options: no continuation lines, byte order mark skipped, inline
/// comments on with `;`, start-of-line comments `;` and `#`, faults not fatal,
/// no keys without value, lines up to 200 bytes.
pub open spec fn default_options() -> OptionsView {
    OptionsView {
        allow_multiline: false,
        allow_bom: true,
        allow_inline_comments: true,
        inline_comment_prefixes: seq![';'],
        start_comment_prefixes: seq![';', '#'],
        stop_on_first_error: false,
        allow_no_value: false,
        max_line: 200,
    }
}

impl Default for ParseOptions {
    fn default() -> (r: Self)
        ensures
            r@ == default_options(),
            !r.call_handler_on_new_section,
    {
        let inline_comment_prefixes = text_of(&[';']);
        let start_comment_prefixes = text_of(&[';', '#']);
        assert(inline_comment_prefixes@ =~= seq![';']);
        assert(start_comment_prefixes@ =~= seq![';', '#']);
        ParseOptions {
            allow_multiline: false,
            allow_bom: true,
            allow_inline_comments: true,
            inline_comment_prefixes,
            start_comment_prefixes,
            stop_on_first_error: false,
            call_handler_on_new_section: false,
            allow_no_value: false,
            max_line: 200,
        }
    }
}

/// A grammar fault on one line.
#[derive(Debug, Clone, Copy, PartialEq, Eq, Structural)]
pub enum Fault {
    /// The line exceeds `max_line` bytes.
    LineTooLong,
    /// A section header without its closing bracket, or with an empty name.
    MissingBracket,
    /// A line of no known shape, when faults are fatal.
    InvalidLine,
}

/// The message reported for a fault.
pub open spec fn fault_text(f: Fault) -> Seq<char> {
    match f {
        Fault::LineTooLong => "Line too long"@,
        Fault::MissingBracket => "Missing ']' in section header"@,
        Fault::InvalidLine => "Invalid line format"@,
    }
}

/// The error that reports `f` on line `line`.
pub open spec fn is_fault_error(e: IniParseError, line: nat, f: Fault) -> bool {
    e matches IniParseError::ParseError { line: l, message } && l == line && message@ == fault_text(f)
}

/// The error that reports fault `f` on line `line`.
pub fn fault_error(line: usize, f: Fault) -> (e: IniParseError)
    ensures
        is_fault_error(e, line as nat, f),
{
    let message = match f {
        Fault::LineTooLong => "Line too long".to_string(),
        Fault::MissingBracket => "Missing ']' in section header".to_string(),
        Fault::InvalidLine => "Invalid line format".to_string(),
    };
    IniParseError::ParseError { line, message }
}


/// What one line amounts to.
pub enum Outcome {
    /// Blank, comment, or (when faults are not fatal) a malformed line.
    Ignore,
    /// An event `(section, name, value)`; a section header gives an empty name and value.
    Event(Seq<char>, Seq<char>, Seq<char>),
    /// A grammar fault.
    Invalid(Fault),
}

/// The outcome of a line and the parser state after it: current section and
/// the key that a continuation line would extend.
pub struct Step {
    pub outcome: Outcome,
    pub section: Seq<char>,
    pub prev_name: Seq<char>,
}

/// The line with a leading byte order mark removed, where that applies.
pub open spec fn strip_bom(line: Seq<char>, line_number: nat, o: OptionsView) -> Seq<char> {
    if line_number == 1 && o.allow_bom && line.len() > 0 && line[0] == '\u{FEFF}' {
        line.drop_first()
    } else {
        line
    }
}

/// Position of the key/value separator: the earlier of `=` and `:` as found by `find_spec`.
pub open spec fn separator(t: Seq<char>, o: OptionsView) -> Option<int> {
    let eq = find_spec(t, '=', o.inline_comment_prefixes, o.allow_inline_comments);
    let colon = find_spec(t, ':', o.inline_comment_prefixes, o.allow_inline_comments);
    match (eq, colon) {
        (Some(e), Some(c)) => Some(if e < c { e } else { c }),
        (Some(e), None) => Some(e),
        (None, Some(c)) => Some(c),
        (None, None) => None,
    }
}

/// `s` cut at an inline comment and trimmed when inline comments are on; else `other`.
pub open spec fn uncommented(s: Seq<char>, other: Seq<char>, o: OptionsView) -> Seq<char> {
    if o.allow_inline_comments {
        strip_comment(s, o.inline_comment_prefixes)
    } else {
        other
    }
}

/// How line `line_number` (from 1) is classified, given the state before it.
pub open spec fn classify(raw: Seq<char>, line_number: nat, section: Seq<char>, prev_name: Seq<char>, o: OptionsView) -> Step {
    let line = strip_bom(raw, line_number, o);
    let t = trim(line);
    let keep = Step { outcome: Outcome::Ignore, section, prev_name };
    if t.len() == 0 {
        keep
    } else if o.start_comment_prefixes.contains(t[0]) {
        keep
    } else if o.allow_multiline && prev_name.len() > 0 && white_space(line[0]) {
        let value = if o.allow_inline_comments {
            line.take(skip_ws(line, 0)) + strip_comment(t, o.inline_comment_prefixes)
        } else {
            line
        };
        Step { outcome: Outcome::Event(section, prev_name, value), section, prev_name }
    } else if t[0] == '[' {
        let missing = Step { outcome: Outcome::Invalid(Fault::MissingBracket), section, prev_name };
        match find_spec(t, ']', o.inline_comment_prefixes, o.allow_inline_comments) {
            Some(e) => if e > 1 {
                let name = t.subrange(1, e);
                Step { outcome: Outcome::Event(name, seq![], seq![]), section: name, prev_name: seq![] }
            } else {
                missing
            },
            None => missing,
        }
    } else {
        match separator(t, o) {
            Some(p) => {
                let name = trim(t.take(p));
                let rest = t.skip(p + 1);
                let value = uncommented(rest, trim(rest), o);
                Step { outcome: Outcome::Event(section, name, value), section, prev_name: name }
            },
            None => if o.allow_no_value {
                let name = uncommented(t, t, o);
                Step { outcome: Outcome::Event(section, name, seq![]), section, prev_name: name }
            } else if o.stop_on_first_error {
                Step { outcome: Outcome::Invalid(Fault::InvalidLine), section, prev_name }
            } else {
                keep
            },
        }
    }
}

/// What one line gave, with its texts.
pub enum LineResult {
    Ignore,
    Event { section: Vec<char>, name: Vec<char>, value: Vec<char> },
    Invalid(Fault),
}

impl LineResult {
    pub open spec fn view(&self) -> Outcome {
        match self {
            LineResult::Ignore => Outcome::Ignore,
            LineResult::Event { section, name, value } => Outcome::Event(section@, name@, value@),
            LineResult::Invalid(f) => Outcome::Invalid(*f),
        }
    }
}

/// The earlier of two optional positions.
fn earlier(a: Option<usize>, b: Option<usize>) -> (r: Option<usize>)
    ensures
        r == (match (a, b) {
            (Some(e), Some(c)) => Some(if e < c { e } else { c }),
            (Some(e), None) => Some(e),
            (None, Some(c)) => Some(c),
            (None, None) => None,
        }),
{
    match (a, b) {
        (Some(e), Some(c)) => Some(if e < c { e } else { c }),
        (Some(e), None) => Some(e),
        (None, Some(c)) => Some(c),
        (None, None) => None,
    }
}

/// The leading whitespace of `line` followed by `t` without its inline comment.
fn indented(line: &[char], t: &[char], inline: &[char]) -> (r: Vec<char>)
    ensures
        r@ == line@.take(skip_ws(line@, 0)) + strip_comment(t@, inline@),
{
    let mut k: usize = 0;
    while k < line.len() && is_ws(line[k])
        invariant
            k <= line@.len(),
            skip_ws(line@, k as int) == skip_ws(line@, 0),
        decreases line.len() - k,
    {
        k = k + 1;
    }
    let mut v = slice_of(line, 0, k);
    let c = remove_inline_comment(t, inline);
    let ghost v0 = v@;
    let mut j: usize = 0;
    while j < c.len()
        invariant
            j <= c@.len(),
            v@ == v0 + c@.take(j as int),
        decreases c.len() - j,
    {
        v.push(c[j]);
        j = j + 1;
        assert(v@ =~= v0 + c@.take(j as int));
    }
    assert(c@.take(c@.len() as int) =~= c@);
    assert(v0 =~= line@.take(k as int));
    v
}

/// Classifies one line (length cap excluded), updating the current section and
/// the key that a continuation would extend.
pub fn parse_line(
    raw: &[char],
    section: &mut Vec<char>,
    prev_name: &mut Vec<char>,
    options: &ParseOptions,
    inline: &[char],
    start: &[char],
    line_number: usize,
) -> (r: LineResult)
    requires
        inline@ == options.inline_comment_prefixes@,
        start@ == options.start_comment_prefixes@,
    ensures
        ({
            let s = classify(raw@, line_number as nat, old(section)@, old(prev_name)@, options@);
            r.view() == s.outcome && final(section)@ == s.section && final(prev_name)@ == s.prev_name
        }),
{
    let ghost o = options@;
    let line: Vec<char> = if line_number == 1 && options.allow_bom && raw.len() > 0 && raw[0] == '\u{FEFF}' {
        slice_of(raw, 1, raw.len())
    } else {
        slice_of(raw, 0, raw.len())
    };
    proof {
        assert(line@ =~= strip_bom(raw@, line_number as nat, o));
    }
    let t = trimmed(&line, 0, line.len());
    assert(line@.subrange(0, line@.len() as int) =~= line@);
    if t.len() == 0 {
        return LineResult::Ignore;
    }
    if contains_char(start, t[0]) {
        return LineResult::Ignore;
    }
    if options.allow_multiline && prev_name.len() > 0 && is_ws(line[0]) {
        let value = if options.allow_inline_comments {
            indented(&line, &t, inline)
        } else {
            line
        };
        return LineResult::Event { section: dup(section), name: dup(prev_name), value };
    }
    if t[0] == '[' {
        match find_char_or_comment(&t, ']', inline, options.allow_inline_comments) {
            Some(e) => {
                if e > 1 {
                    let name = slice_of(&t, 1, e);
                    *section = dup(&name);
                    *prev_name = Vec::new();
                    return LineResult::Event { section: name, name: Vec::new(), value: Vec::new() };
                }
            },
            None => {},
        }
        return LineResult::Invalid(Fault::MissingBracket);
    }
    let eq = find_char_or_comment(&t, '=', inline, options.allow_inline_comments);
    let colon = find_char_or_comment(&t, ':', inline, options.allow_inline_comments);
    match earlier(eq, colon) {
        Some(p) => {
            let name = trimmed(&t, 0, p);
            assert(t@.subrange(0, p as int) =~= t@.take(p as int));
            let rest = slice_of(&t, p + 1, t.len());
            assert(rest@ =~= t@.skip(p + 1));
            let value = if options.allow_inline_comments {
                remove_inline_comment(&rest, inline)
            } else {
                assert(rest@.subrange(0, rest@.len() as int) =~= rest@);
                trimmed(&rest, 0, rest.len())
            };
            *prev_name = dup(&name);
            LineResult::Event { section: dup(section), name, value }
        },
        None => {
            if options.allow_no_value {
                let name = if options.allow_inline_comments {
                    remove_inline_comment(&t, inline)
                } else {
                    t
                };
                *prev_name = dup(&name);
                LineResult::Event { section: dup(section), name, value: Vec::new() }
            } else if options.stop_on_first_error {
                LineResult::Invalid(Fault::InvalidLine)
            } else {
                LineResult::Ignore
            }
        },
    }
}


/// Bytes that `c` takes in UTF-8.
pub open spec fn utf8_width(c: char) -> nat {
    if (c as u32) < 0x80 {
        1
    } else if (c as u32) < 0x800 {
        2
    } else if (c as u32) < 0x10000 {
        3
    } else {
        4
    }
}

/// Bytes that `s` takes in UTF-8.
pub open spec fn byte_len(s: Seq<char>) -> nat
    decreases s.len(),
{
    if s.len() == 0 {
        0
    } else {
        byte_len(s.drop_last()) + utf8_width(s.last())
    }
}

proof fn lemma_byte_len_prefix(s: Seq<char>, i: int)
    requires
        0 <= i <= s.len(),
    ensures
        byte_len(s.take(i)) <= byte_len(s),
    decreases s.len(),
{
    if i < s.len() {
        assert(s.drop_last().take(i) =~= s.take(i));
        lemma_byte_len_prefix(s.drop_last(), i);
    } else {
        assert(s.take(i) =~= s);
    }
}

/// Whether `s` takes more than `max` bytes in UTF-8.
fn longer_than(s: &[char], max: usize) -> (r: bool)
    ensures
        r == (byte_len(s@) > max),
{
    let mut total: usize = 0;
    let mut i: usize = 0;
    while i < s.len()
        invariant
            i <= s@.len(),
            total == byte_len(s@.take(i as int)),
            total <= max,
        decreases s.len() - i,
    {
        let c = s[i];
        let w: usize = if (c as u32) < 0x80 {
            1
        } else if (c as u32) < 0x800 {
            2
        } else if (c as u32) < 0x10000 {
            3
        } else {
            4
        };
        assert(s@.take(i + 1).drop_last() =~= s@.take(i as int));
        if w > max - total {
            proof {
                lemma_byte_len_prefix(s@, i + 1);
            }
            return true;
        }
        total = total + w;
        i = i + 1;
    }
    assert(s@.take(s@.len() as int) =~= s@);
    false
}

/// Classification with the length cap applied first.
pub open spec fn step(raw: Seq<char>, line_number: nat, section: Seq<char>, prev_name: Seq<char>, o: OptionsView) -> Step {
    if byte_len(raw) > o.max_line {
        Step { outcome: Outcome::Invalid(Fault::LineTooLong), section, prev_name }
    } else {
        classify(raw, line_number, section, prev_name, o)
    }
}

/// Index of the first newline at or after `i`, or `s.len()`.
pub open spec fn nl_index(s: Seq<char>, i: int) -> int
    decreases s.len() - i,
{
    if i < 0 || i >= s.len() {
        s.len() as int
    } else if s[i] == '\n' {
        i
    } else {
        nl_index(s, i + 1)
    }
}

proof fn lemma_nl_index_bounds(s: Seq<char>, i: int)
    requires
        0 <= i <= s.len(),
    ensures
        i <= nl_index(s, i) <= s.len(),
        nl_index(s, i) < s.len() ==> s[nl_index(s, i)] == '\n',
    decreases s.len() - i,
{
    if i < s.len() && s[i] != '\n' {
        lemma_nl_index_bounds(s, i + 1);
    }
}

/// The line that starts at `start`: up to the next newline, without the
/// carriage return of a `\r\n` ending.
pub open spec fn line_at(s: Seq<char>, start: int) -> Seq<char> {
    let e = nl_index(s, start);
    let piece = s.subrange(start, e);
    if e < s.len() && piece.len() > 0 && piece.last() == '\r' {
        piece.drop_last()
    } else {
        piece
    }
}

#[via_fn]
proof fn lines_from_decreases(s: Seq<char>, start: int) {
    if 0 <= start < s.len() {
        lemma_nl_index_bounds(s, start);
    }
}

/// The lines from `start` on.
pub open spec fn lines_from(s: Seq<char>, start: int) -> Seq<Seq<char>>
    decreases s.len() + 1 - start via lines_from_decreases
{
    if start < 0 || start >= s.len() {
        seq![]
    } else {
        seq![line_at(s, start)] + lines_from(s, nl_index(s, start) + 1)
    }
}

/// The lines of `s`: split at `\n` and `\r\n`, the last ending optional.
pub open spec fn lines_of(s: Seq<char>) -> Seq<Seq<char>> {
    lines_from(s, 0)
}


/// Splits `s` into lines at `\n` and `\r\n` endings.
pub fn split_lines(s: &[char]) -> (r: Vec<Vec<char>>)
    ensures
        views(r@) == lines_of(s@),
{
    let n = s.len();
    let mut out: Vec<Vec<char>> = Vec::new();
    let mut start: usize = 0;
    while start < n
        invariant
            n == s@.len(),
            start <= n,
            views(out@) + lines_from(s@, start as int) == lines_of(s@),
        decreases n - start,
    {
        let mut e: usize = start;
        while e < n && s[e] != '\n'
            invariant
                start <= e <= n == s@.len(),
                nl_index(s@, e as int) == nl_index(s@, start as int),
            decreases n - e,
        {
            e = e + 1;
        }
        let end: usize = if e < n && e > start && s[e - 1] == '\r' {
            e - 1
        } else {
            e
        };
        let line = slice_of(s, start, end);
        proof {
            assert(line@ =~= line_at(s@, start as int));
            assert(views(out@.push(line)) =~= views(out@).push(line@));
            assert(lines_from(s@, start as int) == seq![line@] + lines_from(s@, e + 1));
            assert(e < n || lines_from(s@, e + 1) =~= lines_from(s@, n as int));
        }
        out.push(line);
        start = if e < n {
            e + 1
        } else {
            n
        };
        proof {
            assert(views(out@) + lines_from(s@, start as int) =~= lines_of(s@));
        }
    }
    assert(views(out@) + lines_from(s@, start as int) =~= views(out@));
    out
}


/// An event as the scan reports it: the line it came from and its texts.
pub struct LineEvent {
    pub line: nat,
    pub section: Seq<char>,
    pub name: Seq<char>,
    pub value: Seq<char>,
}

/// Where a scan over some lines stands: the events so far, the first fault and
/// its line, the current section and the key a continuation would extend.
pub struct Scan {
    pub events: Seq<LineEvent>,
    pub fault: Option<(nat, Fault)>,
    pub section: Seq<char>,
    pub prev_name: Seq<char>,
}

/// The scan of `lines`, line by line; with `stop_on_first_error` nothing after
/// the first fault is looked at.
pub open spec fn scan(lines: Seq<Seq<char>>, o: OptionsView) -> Scan
    decreases lines.len(),
{
    if lines.len() == 0 {
        Scan { events: seq![], fault: None, section: seq![], prev_name: seq![] }
    } else {
        let r = scan(lines.drop_last(), o);
        if o.stop_on_first_error && r.fault is Some {
            r
        } else {
            let n = lines.len() as nat;
            let st = step(lines.last(), n, r.section, r.prev_name, o);
            let events = match st.outcome {
                Outcome::Event(sec, name, value) => r.events.push(
                    LineEvent { line: n, section: sec, name, value },
                ),
                _ => r.events,
            };
            let fault = match st.outcome {
                Outcome::Invalid(f) => if r.fault is None {
                    Some((n, f))
                } else {
                    r.fault
                },
                _ => r.fault,
            };
            Scan { events, fault, section: st.section, prev_name: st.prev_name }
        }
    }
}

proof fn lemma_scan_stopped(lines: Seq<Seq<char>>, i: int, j: int, o: OptionsView)
    requires
        0 <= i <= j <= lines.len(),
        o.stop_on_first_error,
        scan(lines.take(i), o).fault is Some,
    ensures
        scan(lines.take(j), o) == scan(lines.take(i), o),
    decreases j - i,
{
    if j > i {
        lemma_scan_stopped(lines, i, j - 1, o);
        assert(lines.take(j).drop_last() =~= lines.take(j - 1));
    }
}

proof fn lemma_fault_kept(lines: Seq<Seq<char>>, i: int, j: int, o: OptionsView)
    requires
        0 <= i <= j <= lines.len(),
        scan(lines.take(i), o).fault is Some,
    ensures
        scan(lines.take(j), o).fault == scan(lines.take(i), o).fault,
    decreases j - i,
{
    if j > i {
        lemma_fault_kept(lines, i, j - 1, o);
        assert(lines.take(j).drop_last() =~= lines.take(j - 1));
    }
}

/// The first faulty line is the one reported: when lines before line `i + 1`
/// gave no fault and that line does, the scan's fault is that line's, with its
/// number.
pub proof fn lemma_first_fault_reported(lines: Seq<Seq<char>>, i: int, o: OptionsView, f: Fault)
    requires
        0 <= i < lines.len(),
        scan(lines.take(i), o).fault is None,
        step(lines[i], (i + 1) as nat, scan(lines.take(i), o).section, scan(lines.take(i), o).prev_name, o).outcome
            == Outcome::Invalid(f),
    ensures
        scan(lines, o).fault == Some(((i + 1) as nat, f)),
{
    assert(lines.take(i + 1).drop_last() =~= lines.take(i));
    assert(lines.take(i + 1).last() == lines[i]);
    lemma_fault_kept(lines, i + 1, lines.len() as int, o);
    assert(lines.take(lines.len() as int) =~= lines);
}

/// A section header that is never closed is reported on its own line: the
/// line's text opens with `[` and holds no `]`, it is neither a comment nor a
/// continuation, fits the length cap, and no earlier line was faulty.
pub proof fn lemma_unterminated_section(lines: Seq<Seq<char>>, i: int, o: OptionsView)
    requires
        0 <= i < lines.len(),
        scan(lines.take(i), o).fault is None,
        ({
            let line = strip_bom(lines[i], (i + 1) as nat, o);
            let t = trim(line);
            &&& t.len() > 0 && t[0] == '['
            &&& forall|k: int| 0 <= k < t.len() ==> t[k] != ']'
            &&& !o.start_comment_prefixes.contains('[')
            &&& !(o.allow_multiline && scan(lines.take(i), o).prev_name.len() > 0 && white_space(line[0]))
            &&& byte_len(lines[i]) <= o.max_line
        }),
    ensures
        scan(lines, o).fault == Some(((i + 1) as nat, Fault::MissingBracket)),
{
    lemma_first_fault_reported(lines, i, o, Fault::MissingBracket);
}

/// An event with its texts.
pub struct Event {
    pub line: usize,
    pub section: Vec<char>,
    pub name: Vec<char>,
    pub value: Vec<char>,
}

impl Event {
    pub open spec fn view(&self) -> LineEvent {
        LineEvent { line: self.line as nat, section: self.section@, name: self.name@, value: self.value@ }
    }
}

/// The events held by a vector.
pub open spec fn event_views(v: Seq<Event>) -> Seq<LineEvent> {
    v.map_values(|e: Event| e.view())
}

/// The error that reports a scan's fault, if there is one.
pub open spec fn fault_matches(e: Option<IniParseError>, f: Option<(nat, Fault)>) -> bool {
    match (e, f) {
        (None, None) => true,
        (Some(e), Some((n, k))) => is_fault_error(e, n, k),
        _ => false,
    }
}

/// Scans `lines` with a consumer that accepts every event: all events in order,
/// and the first fault (with `stop_on_first_error`, nothing after it).
pub fn collect_events(lines: &Vec<Vec<char>>, options: &ParseOptions) -> (r: (Vec<Event>, Option<IniParseError>))
    ensures
        event_views(r.0@) == scan(views(lines@), options@).events,
        fault_matches(r.1, scan(views(lines@), options@).fault),
{
    let ghost o = options@;
    let ghost all = views(lines@);
    let inline = chars_of(options.inline_comment_prefixes.as_str());
    let start = chars_of(options.start_comment_prefixes.as_str());
    let mut events: Vec<Event> = Vec::new();
    let mut fault: Option<IniParseError> = None;
    let mut section: Vec<char> = Vec::new();
    let mut prev_name: Vec<char> = Vec::new();
    let mut i: usize = 0;
    assert(all.take(0) =~= seq![]);
    while i < lines.len() && !(options.stop_on_first_error && fault.is_some())
        invariant
            i <= lines@.len(),
            all == views(lines@),
            o == options@,
            inline@ == options.inline_comment_prefixes@,
            start@ == options.start_comment_prefixes@,
            ({
                let sc = scan(all.take(i as int), o);
                &&& event_views(events@) == sc.events
                &&& fault_matches(fault, sc.fault)
                &&& section@ == sc.section
                &&& prev_name@ == sc.prev_name
            }),
        decreases lines.len() - i,
    {
        let ghost before = scan(all.take(i as int), o);
        let line: &Vec<char> = &lines[i];
        let number: usize = i + 1;
        assert(all.take(number as int).drop_last() =~= all.take(i as int));
        assert(all.take(number as int).last() == line@);
        let outcome = if longer_than(line, options.max_line) {
            LineResult::Invalid(Fault::LineTooLong)
        } else {
            parse_line(line, &mut section, &mut prev_name, options, &inline, &start, number)
        };
        match outcome {
            LineResult::Ignore => {},
            LineResult::Event { section: sec, name, value } => {
                let ghost ev = events@;
                events.push(Event { line: number, section: sec, name, value });
                assert(event_views(events@) =~= event_views(ev).push(events@.last().view()));
            },
            LineResult::Invalid(f) => {
                if fault.is_none() {
                    fault = Some(fault_error(number, f));
                }
            },
        }
        i = number;
    }
    proof {
        if i < lines@.len() {
            lemma_scan_stopped(all, i as int, lines@.len() as int, o);
        }
        assert(all.take(lines@.len() as int) =~= all);
    }
    (events, fault)
}


/// A consumer of parse events.
pub trait IniHandler {
    /// Receives one event: `name` is empty for a section header, `value` is
    /// empty for a key without value. `Err` carries a reason for rejecting it.
    fn handle(&mut self, section: &str, name: &str, value: &str) -> Result<(), String>;
}

/// The texts held by a vector of strings.
pub open spec fn string_views(v: Seq<String>) -> Seq<Seq<char>> {
    v.map_values(|l: String| l@)
}

/// What a parse result owes to the scan of its lines, whatever the consumer
/// answered: a fault makes it fail, success means there was none, and an error
/// not raised by the consumer is the scan's first fault.
pub open spec fn settles(r: Result<(), IniParseError>, sc: Scan) -> bool {
    &&& sc.fault is Some ==> r is Err
    &&& r is Ok ==> sc.fault is None
    &&& match r {
        Err(IniParseError::HandlerError(_)) => true,
        Err(e) => fault_matches(Some(e), sc.fault),
        Ok(_) => true,
    }
}

/// The line a grammar error is reported on (0 for other errors).
pub open spec fn error_line(e: IniParseError) -> nat {
    match e {
        IniParseError::ParseError { line, .. } => line as nat,
        _ => 0,
    }
}

/// The result of a parse from its first grammar fault and the consumer's first
/// rejection (with the line of the rejected event): the earlier of the two
/// fails the parse; with neither it succeeds.
pub fn first_error(fault: Option<IniParseError>, rejection: Option<(usize, String)>) -> (r: Result<(), IniParseError>)
    ensures
        r == (match (fault, rejection) {
            (None, None) => Ok(()),
            (None, Some((_, msg))) => Err(IniParseError::HandlerError(msg)),
            (Some(e), None) => Err(e),
            (Some(e), Some((at, msg))) => if (at as nat) < error_line(e) {
                Err(IniParseError::HandlerError(msg))
            } else {
                Err(e)
            },
        }),
{
    match (fault, rejection) {
        (None, None) => Ok(()),
        (None, Some((_, msg))) => Err(IniParseError::HandlerError(msg)),
        (Some(e), None) => Err(e),
        (Some(e), Some((at, msg))) => {
            let fault_line = match &e {
                IniParseError::ParseError { line, .. } => *line,
                _ => 0,
            };
            if at < fault_line {
                Err(IniParseError::HandlerError(msg))
            } else {
                Err(e)
            }
        },
    }
}

/// Index of the first rejection among a consumer's answers (`None` for an
/// accepted event, `Some(reason)` for a rejected one).
pub open spec fn first_rejection(answers: Seq<Option<Seq<char>>>) -> Option<int>
    decreases answers.len(),
{
    if answers.len() == 0 {
        None
    } else {
        match first_rejection(answers.drop_last()) {
            Some(i) => Some(i),
            None => if answers.last() is Some {
                Some(answers.len() - 1)
            } else {
                None
            },
        }
    }
}

/// The result of a parse, given the scan's events and first fault, and the
/// answers the consumer gave: `answers[i]` answers `events[i]`, handed over in
/// order. Every event is handed over, except that with `stop` nothing follows
/// the first rejection. The earlier of the first rejection and the first fault
/// decides the result: a rejection gives `HandlerError` with its reason, a fault
/// its `ParseError`; with neither the parse succeeds.
pub open spec fn answered(
    r: Result<(), IniParseError>,
    events: Seq<LineEvent>,
    fault: Option<(nat, Fault)>,
    stop: bool,
    answers: Seq<Option<Seq<char>>>,
) -> bool {
    let rej = first_rejection(answers);
    let handler_first = match rej {
        Some(i) => match fault {
            None => true,
            Some((n, _)) => events[i].line < n,
        },
        None => false,
    };
    &&& answers.len() <= events.len()
    &&& answers.len() == (if stop && rej is Some {
        rej->0 + 1
    } else {
        events.len() as int
    })
    &&& if handler_first {
        match r {
            Err(IniParseError::HandlerError(m)) => m@ == answers[rej->0]->0,
            _ => false,
        }
    } else {
        match fault {
            None => r == Ok::<(), IniParseError>(()),
            Some((n, k)) => match r {
                Err(e) => is_fault_error(e, n, k),
                Ok(_) => false,
            },
        }
    }
}

/// Two results agree: both succeed, or both fail with the same kind of error,
/// line and text.
pub open spec fn same_result(a: Result<(), IniParseError>, b: Result<(), IniParseError>) -> bool {
    match (a, b) {
        (Ok(_), Ok(_)) => true,
        (Err(IniParseError::HandlerError(m1)), Err(IniParseError::HandlerError(m2))) => m1@ == m2@,
        (
            Err(IniParseError::ParseError { line: l1, message: m1 }),
            Err(IniParseError::ParseError { line: l2, message: m2 }),
        ) => l1 == l2 && m1@ == m2@,
        _ => false,
    }
}

/// Determinism: parsing the same events and fault, with a consumer that gives
/// the same answers, ends the same way.
pub proof fn lemma_same_answers_same_result(
    r1: Result<(), IniParseError>,
    r2: Result<(), IniParseError>,
    events: Seq<LineEvent>,
    fault: Option<(nat, Fault)>,
    stop: bool,
    answers: Seq<Option<Seq<char>>>,
)
    requires
        answered(r1, events, fault, stop, answers),
        answered(r2, events, fault, stop, answers),
    ensures
        same_result(r1, r2),
{
}

/// Hands `events` to `handler` in order. With `stop_on_first_error` a rejection
/// ends the parse at once; otherwise the earlier of the first rejection and the
/// first fault is reported.
fn deliver<H: IniHandler>(
    events: Vec<Event>,
    fault: Option<IniParseError>,
    Ghost(scan_fault): Ghost<Option<(nat, Fault)>>,
    handler: &mut H,
    options: &ParseOptions,
) -> (r: Result<(), IniParseError>)
    requires
        fault_matches(fault, scan_fault),
    ensures
        exists|answers: Seq<Option<Seq<char>>>|
            answered(r, event_views(events@), scan_fault, options.stop_on_first_error, answers),
{
    let ghost evs = event_views(events@);
    let ghost mut answers: Seq<Option<Seq<char>>> = seq![];
    let mut rejected: Option<(usize, String)> = None;
    let mut i: usize = 0;
    while i < events.len() && !(options.stop_on_first_error && rejected.is_some())
        invariant
            i <= events@.len(),
            evs == event_views(events@),
            answers.len() == i,
            match (rejected, first_rejection(answers)) {
                (None, None) => true,
                (Some((at, msg)), Some(k)) => 0 <= k < i && evs[k].line == at as nat && answers[k] == Some(
                    msg@,
                ) && (options.stop_on_first_error ==> k == i - 1),
                _ => false,
            },
        decreases events.len() - i,
    {
        let ev = &events[i];
        let section = text_of(&ev.section);
        let name = text_of(&ev.name);
        let value = text_of(&ev.value);
        let answer = handler.handle(section.as_str(), name.as_str(), value.as_str());
        let ghost prev = answers;
        match answer {
            Ok(()) => {
                proof {
                    answers = answers.push(None);
                }
            },
            Err(msg) => {
                proof {
                    answers = answers.push(Some(msg@));
                }
                if rejected.is_none() {
                    rejected = Some((ev.line, msg));
                }
            },
        }
        assert(answers.drop_last() =~= prev);
        i = i + 1;
    }
    let r = first_error(fault, rejected);
    assert(answered(r, evs, scan_fault, options.stop_on_first_error, answers));
    r
}

/// The characters of each line.
pub fn lines_as_chars(lines: &Vec<String>) -> (r: Vec<Vec<char>>)
    ensures
        views(r@) == string_views(lines@),
{
    let mut chars: Vec<Vec<char>> = Vec::new();
    let mut i: usize = 0;
    while i < lines.len()
        invariant
            i <= lines@.len(),
            views(chars@) == string_views(lines@).take(i as int),
        decreases lines.len() - i,
    {
        let ghost before = chars@;
        let c = chars_of(lines[i].as_str());
        assert(c@ == string_views(lines@)[i as int]);
        chars.push(c);
        assert(views(chars@) =~= views(before).push(c@));
        assert(string_views(lines@).take(i + 1) =~= string_views(lines@).take(i as int).push(c@));
        i = i + 1;
    }
    assert(string_views(lines@).take(lines@.len() as int) =~= string_views(lines@));
    chars
}

/// Parses `lines` (line numbers count from 1) and hands each event to `handler`.
pub fn ini_parse_lines_with_options<H: IniHandler>(lines: &Vec<String>, handler: &mut H, options: &ParseOptions) -> (r: Result<(), IniParseError>)
    ensures
        settles(r, scan(string_views(lines@), options@)),
        exists|answers: Seq<Option<Seq<char>>>|
            answered(
                r,
                scan(string_views(lines@), options@).events,
                scan(string_views(lines@), options@).fault,
                options.stop_on_first_error,
                answers,
            ),
{
    let chars = lines_as_chars(lines);
    let (events, fault) = collect_events(&chars, options);
    deliver(events, fault, Ghost(scan(string_views(lines@), options@).fault), handler, options)
}

/// Parses INI text with `options` and hands each event to `handler`.
pub fn ini_parse_string_with_options<H: IniHandler>(data: &str, handler: &mut H, options: &ParseOptions) -> (r: Result<(), IniParseError>)
    ensures
        settles(r, scan(lines_of(data@), options@)),
        exists|answers: Seq<Option<Seq<char>>>|
            answered(
                r,
                scan(lines_of(data@), options@).events,
                scan(lines_of(data@), options@).fault,
                options.stop_on_first_error,
                answers,
            ),
{
    let chars = chars_of(data);
    let lines = split_lines(&chars);
    let (events, fault) = collect_events(&lines, options);
    deliver(events, fault, Ghost(scan(lines_of(data@), options@).fault), handler, options)
}

/// Parses INI text with the default options and hands each event to `handler`.
pub fn ini_parse_string<H: IniHandler>(data: &str, handler: &mut H) -> (r: Result<(), IniParseError>)
    ensures
        settles(r, scan(lines_of(data@), default_options())),
        exists|answers: Seq<Option<Seq<char>>>|
            answered(
                r,
                scan(lines_of(data@), default_options()).events,
                scan(lines_of(data@), default_options()).fault,
                false,
                answers,
            ),
{
    let options = ParseOptions::default();
    ini_parse_string_with_options(data, handler, &options)
}

} // verus!
