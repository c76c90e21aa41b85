//! The statements of a script line: `if`, `else`, `end`, `fn`, `for`, and
//! otherwise pipelines.
//!
//! The keyword statements are read from the fields of the line, the runs of
//! characters between blanks. Anything that is not a keyword statement is
//! split into pipelines at top-level separators and comments, and each piece
//! that forms a pipeline becomes one; a piece that does not is left out.
use vstd::prelude::*;
use crate::job::{Pipeline, PipelineView};
use crate::pipeline_parser::{parse_pipeline, pipeline_of};
use crate::splitter::{
    PipelineIterator,
    ScanState,
    chars_of,
    initial_state,
    is_blank,
    law_blank_script_has_no_pipelines,
    law_lone_comment_has_no_pipelines,
    lemma_scan,
    scan,
    scan_invariant,
};

verus! {

/// How the two sides of an `if` are compared.
#[derive(Debug, PartialEq, Eq, Structural, Clone, Copy)]
pub enum Comparitor {
    Equal,
    NotEqual,
    LessThan,
    LessThanOrEqual,
    GreaterThan,
    GreaterThanOrEqual,
}

/// One statement of a script.
#[derive(Debug, PartialEq, Clone)]
pub enum Statement {
    If { left: String, comparitor: Comparitor, right: String },
    Else,
    End,
    Function { name: String, args: Vec<String> },
    For { variable: String, values: Vec<String> },
    Pipelines(Vec<Pipeline>),
}

/// A statement as a value.
#[verifier::ext_equal]
pub enum StatementView {
    If { left: Seq<char>, comparitor: Comparitor, right: Seq<char> },
    Else,
    End,
    Function { name: Seq<char>, args: Seq<Seq<char>> },
    For { variable: Seq<char>, values: Seq<Seq<char>> },
    Pipelines(Seq<PipelineView>),
}

impl View for Statement {
    type V = StatementView;

    open spec fn view(&self) -> StatementView {
        match self {
            Statement::If { left, comparitor, right } => StatementView::If {
                left: left@,
                comparitor: *comparitor,
                right: right@,
            },
            Statement::Else => StatementView::Else,
            Statement::End => StatementView::End,
            Statement::Function { name, args } => StatementView::Function {
                name: name@,
                args: args.deep_view(),
            },
            Statement::For { variable, values } => StatementView::For {
                variable: variable@,
                values: values.deep_view(),
            },
            Statement::Pipelines(pipelines) => StatementView::Pipelines(
                pipelines@.map_values(|p: Pipeline| p@),
            ),
        }
    }
}

/// The text is not of the form that the rule reads.
#[derive(Debug, PartialEq, Eq, Structural, Clone, Copy)]
pub struct ParseError;

// ---------------------------------------------------------------------------
// Pipelines

/// The pipelines of `text` from scanner state `st` on: each piece that the
/// scanner hands out, parsed, and left out when it forms no pipeline.
pub open spec fn pipelines_from(text: Seq<char>, st: ScanState) -> Seq<PipelineView>
    decreases text.len() + 1 - st.start,
{
    if text.len() < usize::MAX && scan_invariant(text, st) {
        let (next, piece) = scan(text, st);
        match piece {
            Some((a, b)) => {
                proof {
                    lemma_scan(text, st);
                }
                let rest = pipelines_from(text, next);
                match pipeline_of(text.subrange(a as int, b as int)) {
                    Some(p) => seq![p] + rest,
                    None => rest,
                }
            },
            None => Seq::empty(),
        }
    } else {
        Seq::empty()
    }
}

/// The pipelines of a script.
pub open spec fn pipelines_of(text: Seq<char>) -> Seq<PipelineView> {
    if text.len() == 0 {
        Seq::empty()
    } else {
        pipelines_from(text, initial_state(text))
    }
}

/// Reads a script as pipelines: the pieces between top-level `;`, newlines
/// and carriage returns, comments left out, each parsed as a pipeline; a
/// piece that forms no pipeline is left out. It always succeeds.
pub fn pipelines(code: &str) -> (r: Result<Statement, ParseError>)
    requires
        code@.len() < usize::MAX,
    ensures
        r matches Ok(st) && st@ == StatementView::Pipelines(pipelines_of(code@)),
{
    let mut out: Vec<Pipeline> = Vec::new();
    if code.is_empty() {
        assert(out@.map_values(|p: Pipeline| p@) =~= Seq::<PipelineView>::empty());
        return Ok(Statement::Pipelines(out));
    }
    let ghost text = code@;
    let mut it = PipelineIterator::new(code);
    loop
        invariant_except_break
            pipelines_of(text) == out@.map_values(|p: Pipeline| p@) + pipelines_from(
                text,
                it.state(),
            ),
        invariant
            it.wf(),
            it.text() == text,
            text == code@,
            text.len() < usize::MAX,
            text.len() > 0,
        ensures
            pipelines_of(text) == out@.map_values(|p: Pipeline| p@),
        decreases text.len() + 1 - it.state().start,
    {
        let ghost st = it.state();
        let ghost before = out@.map_values(|p: Pipeline| p@);
        proof {
            it.lemma_wf();
            lemma_scan(text, st);
        }
        match it.next() {
            Some(piece) => {
                let ghost rest = pipelines_from(text, it.state());
                assert(pipelines_from(text, st) == (match pipeline_of(piece@) {
                    Some(p) => seq![p] + rest,
                    None => rest,
                }));
                let parsed = parse_pipeline(piece);
                match parsed {
                    Some(p) => {
                        out.push(p);
                        assert(out@.map_values(|p: Pipeline| p@) =~= before.push(p@));
                        assert(before + (seq![p@] + rest) =~= before.push(p@) + rest);
                    },
                    None => {},
                }
            },
            None => {
                assert(pipelines_from(text, st) =~= Seq::<PipelineView>::empty());
                assert(before + Seq::<PipelineView>::empty() =~= before);
                break ;
            },
        }
    }
    Ok(Statement::Pipelines(out))
}

// ---------------------------------------------------------------------------
// Keyword statements

/// Where the field that starts at `i` ends.
pub open spec fn field_end(s: Seq<char>, i: int) -> int
    decreases s.len() - i,
{
    if 0 <= i < s.len() && !is_blank(s[i]) {
        field_end(s, i + 1)
    } else {
        i
    }
}

pub proof fn lemma_field_end(s: Seq<char>, i: int)
    requires
        0 <= i <= s.len(),
    ensures
        i <= field_end(s, i) <= s.len(),
        i < s.len() && !is_blank(s[i]) ==> i < field_end(s, i),
    decreases s.len() - i,
{
    if i < s.len() && !is_blank(s[i]) {
        lemma_field_end(s, i + 1);
    }
}

/// The fields of `s` from position `i` on: the runs of characters between blanks.
pub open spec fn fields_from(s: Seq<char>, i: int) -> Seq<Seq<char>>
    decreases s.len() - i,
{
    if i < 0 || i >= s.len() {
        Seq::empty()
    } else if is_blank(s[i]) {
        fields_from(s, i + 1)
    } else {
        let e = field_end(s, i);
        proof {
            lemma_field_end(s, i);
        }
        seq![s.subrange(i, e)] + fields_from(s, e)
    }
}

/// The fields of `s`: the runs of characters between blanks.
pub open spec fn fields(s: Seq<char>) -> Seq<Seq<char>> {
    fields_from(s, 0)
}

/// The comparitor that the field spells, if any.
pub open spec fn comparitor_of(w: Seq<char>) -> Option<Comparitor> {
    if w == seq!['=', '='] {
        Some(Comparitor::Equal)
    } else if w == seq!['!', '='] {
        Some(Comparitor::NotEqual)
    } else if w == seq!['<', '='] {
        Some(Comparitor::LessThanOrEqual)
    } else if w == seq!['>', '='] {
        Some(Comparitor::GreaterThanOrEqual)
    } else if w == seq!['<'] {
        Some(Comparitor::LessThan)
    } else if w == seq!['>'] {
        Some(Comparitor::GreaterThan)
    } else {
        None
    }
}

/// A character that may stand in a comparison.
pub open spec fn is_comparitor_char(c: char) -> bool {
    c == '=' || c == '!' || c == '<' || c == '>'
}

/// A field that can be a side of a comparison: no comparitor character.
pub open spec fn is_operand(w: Seq<char>) -> bool {
    forall|i: int| 0 <= i < w.len() ==> !is_comparitor_char(#[trigger] w[i])
}

/// A letter, a digit or an underscore.
pub open spec fn is_name_char(c: char) -> bool {
    ('a' <= c <= 'z') || ('A' <= c <= 'Z') || ('0' <= c <= '9') || c == '_'
}

/// A field that can name a function, a parameter or a loop variable.
pub open spec fn is_name(w: Seq<char>) -> bool {
    forall|i: int| 0 <= i < w.len() ==> is_name_char(#[trigger] w[i])
}

/// `if left comparitor right`.
pub open spec fn if_of(s: Seq<char>) -> Option<StatementView> {
    let f = fields(s);
    if f.len() == 4 && f[0] == seq!['i', 'f'] && is_operand(f[1]) && comparitor_of(f[2]) is Some
        && is_operand(f[3]) {
        Some(StatementView::If { left: f[1], comparitor: comparitor_of(f[2]).unwrap(), right: f[3] })
    } else {
        None
    }
}

/// `else`.
pub open spec fn else_of(s: Seq<char>) -> Option<StatementView> {
    let f = fields(s);
    if f.len() == 1 && f[0] == seq!['e', 'l', 's', 'e'] {
        Some(StatementView::Else)
    } else {
        None
    }
}

/// `end`.
pub open spec fn end_of(s: Seq<char>) -> Option<StatementView> {
    let f = fields(s);
    if f.len() == 1 && f[0] == seq!['e', 'n', 'd'] {
        Some(StatementView::End)
    } else {
        None
    }
}

/// `fn name parameter*`, every one of them a name.
pub open spec fn fn_of(s: Seq<char>) -> Option<StatementView> {
    let f = fields(s);
    if f.len() >= 2 && f[0] == seq!['f', 'n'] && forall|i: int|
        1 <= i < f.len() ==> is_name(#[trigger] f[i]) {
        Some(StatementView::Function { name: f[1], args: f.skip(2) })
    } else {
        None
    }
}

/// `for variable in value*`, the variable a name.
pub open spec fn for_of(s: Seq<char>) -> Option<StatementView> {
    let f = fields(s);
    if f.len() >= 3 && f[0] == seq!['f', 'o', 'r'] && is_name(f[1]) && f[2] == seq!['i', 'n'] {
        Some(StatementView::For { variable: f[1], values: f.skip(3) })
    } else {
        None
    }
}

/// The statement that a line holds: the first keyword statement that reads
/// it, in the order `if`, `else`, `end`, `fn`, `for`; else its pipelines.
pub open spec fn statement_of(s: Seq<char>) -> StatementView {
    if if_of(s) is Some {
        if_of(s).unwrap()
    } else if else_of(s) is Some {
        else_of(s).unwrap()
    } else if end_of(s) is Some {
        end_of(s).unwrap()
    } else if fn_of(s) is Some {
        fn_of(s).unwrap()
    } else if for_of(s) is Some {
        for_of(s).unwrap()
    } else {
        StatementView::Pipelines(pipelines_of(s))
    }
}

/// The positions of the fields of `s`.
fn field_ranges(s: &Vec<char>) -> (r: Vec<(usize, usize)>)
    requires
        s@.len() < usize::MAX,
    ensures
        r@.map_values(|p: (usize, usize)| s@.subrange(p.0 as int, p.1 as int)) == fields(s@),
        forall|k: int| 0 <= k < r@.len() ==> (#[trigger] r@[k]).0 <= r@[k].1 <= s@.len(),
{
    let n = s.len();
    let mut r: Vec<(usize, usize)> = Vec::new();
    let mut i: usize = 0;
    while i < n
        invariant
            i <= n,
            n == s@.len(),
            fields(s@) == r@.map_values(|p: (usize, usize)| s@.subrange(p.0 as int, p.1 as int))
                + fields_from(s@, i as int),
            forall|k: int| 0 <= k < r@.len() ==> (#[trigger] r@[k]).0 <= r@[k].1 <= s@.len(),
        decreases n - i,
    {
        let c = s[i];
        if c == ' ' || c == '\t' || c == '\n' || c == '\r' {
            i += 1;
        } else {
            proof {
                lemma_field_end(s@, i as int);
            }
            let mut e = i;
            while e < n && !(s[e] == ' ' || s[e] == '\t' || s[e] == '\n' || s[e] == '\r')
                invariant
                    i <= e <= n,
                    n == s@.len(),
                    field_end(s@, e as int) == field_end(s@, i as int),
                decreases n - e,
            {
                e += 1;
            }
            let ghost before = r@.map_values(|p: (usize, usize)| s@.subrange(p.0 as int, p.1 as int));
            r.push((i, e));
            assert(r@.map_values(|p: (usize, usize)| s@.subrange(p.0 as int, p.1 as int)) =~= before.push(
                s@.subrange(i as int, e as int),
            ));
            assert(before + (seq![s@.subrange(i as int, e as int)] + fields_from(s@, e as int))
                =~= before.push(s@.subrange(i as int, e as int)) + fields_from(s@, e as int));
            i = e;
        }
    }
    assert(fields_from(s@, n as int) =~= Seq::<Seq<char>>::empty());
    assert(r@.map_values(|p: (usize, usize)| s@.subrange(p.0 as int, p.1 as int)) + Seq::<
        Seq<char>,
    >::empty() =~= r@.map_values(|p: (usize, usize)| s@.subrange(p.0 as int, p.1 as int)));
    r
}

/// Whether `s[a..b]` spells `word`.
fn spells(s: &Vec<char>, a: usize, b: usize, word: &Vec<char>) -> (r: bool)
    requires
        a <= b <= s@.len(),
    ensures
        r == (s@.subrange(a as int, b as int) == word@),
{
    if b - a != word.len() {
        return false;
    }
    let mut k: usize = 0;
    while k < word.len()
        invariant
            k <= word@.len(),
            b - a == word@.len(),
            a <= b <= s@.len(),
            forall|q: int| 0 <= q < k ==> s@[a + q] == #[trigger] word@[q],
        decreases word@.len() - k,
    {
        if s[a + k] != word[k] {
            assert(s@.subrange(a as int, b as int)[k as int] != word@[k as int]);
            return false;
        }
        k += 1;
    }
    assert(s@.subrange(a as int, b as int) =~= word@);
    true
}

/// The characters of a keyword or an operator, as a vector.
fn word_of(chars: &[char]) -> (w: Vec<char>)
    ensures
        w@ == chars@,
{
    let mut w: Vec<char> = Vec::new();
    let mut k: usize = 0;
    while k < chars.len()
        invariant
            k <= chars@.len(),
            w@ == chars@.subrange(0, k as int),
        decreases chars@.len() - k,
    {
        w.push(chars[k]);
        k += 1;
        assert(w@ =~= chars@.subrange(0, k as int));
    }
    assert(chars@.subrange(0, k as int) =~= chars@);
    w
}

/// The comparitor that `s[a..b]` spells, if any.
fn read_comparitor(s: &Vec<char>, a: usize, b: usize) -> (r: Option<Comparitor>)
    requires
        a <= b <= s@.len(),
    ensures
        r == comparitor_of(s@.subrange(a as int, b as int)),
{
    let equal = ['=', '='];
    let not_equal = ['!', '='];
    let less_equal = ['<', '='];
    let greater_equal = ['>', '='];
    let less = ['<'];
    let greater = ['>'];
    assert(equal@ =~= seq!['=', '=']);
    assert(not_equal@ =~= seq!['!', '=']);
    assert(less_equal@ =~= seq!['<', '=']);
    assert(greater_equal@ =~= seq!['>', '=']);
    assert(less@ =~= seq!['<']);
    assert(greater@ =~= seq!['>']);
    if spells(s, a, b, &word_of(&equal)) {
        Some(Comparitor::Equal)
    } else if spells(s, a, b, &word_of(&not_equal)) {
        Some(Comparitor::NotEqual)
    } else if spells(s, a, b, &word_of(&less_equal)) {
        Some(Comparitor::LessThanOrEqual)
    } else if spells(s, a, b, &word_of(&greater_equal)) {
        Some(Comparitor::GreaterThanOrEqual)
    } else if spells(s, a, b, &word_of(&less)) {
        Some(Comparitor::LessThan)
    } else if spells(s, a, b, &word_of(&greater)) {
        Some(Comparitor::GreaterThan)
    } else {
        None
    }
}

/// Whether no character of `s[a..b]` is a comparitor character.
fn is_operand_at(s: &Vec<char>, a: usize, b: usize) -> (r: bool)
    requires
        a <= b <= s@.len(),
    ensures
        r == is_operand(s@.subrange(a as int, b as int)),
{
    let mut k = a;
    while k < b
        invariant
            a <= k <= b <= s@.len(),
            forall|q: int| a <= q < k ==> !is_comparitor_char(#[trigger] s@[q]),
        decreases b - k,
    {
        let c = s[k];
        if c == '=' || c == '!' || c == '<' || c == '>' {
            assert(s@.subrange(a as int, b as int)[k - a] == c);
            return false;
        }
        k += 1;
    }
    assert forall|i: int| 0 <= i < s@.subrange(a as int, b as int).len() implies !is_comparitor_char(
        #[trigger] s@.subrange(a as int, b as int)[i],
    ) by {
        assert(s@.subrange(a as int, b as int)[i] == s@[a + i]);
    }
    true
}

/// Whether every character of `s[a..b]` is a letter, a digit or an underscore.
fn is_name_at(s: &Vec<char>, a: usize, b: usize) -> (r: bool)
    requires
        a <= b <= s@.len(),
    ensures
        r == is_name(s@.subrange(a as int, b as int)),
{
    let mut k = a;
    while k < b
        invariant
            a <= k <= b <= s@.len(),
            forall|q: int| a <= q < k ==> is_name_char(#[trigger] s@[q]),
        decreases b - k,
    {
        let c = s[k];
        if !(('a' <= c && c <= 'z') || ('A' <= c && c <= 'Z') || ('0' <= c && c <= '9') || c
            == '_') {
            assert(s@.subrange(a as int, b as int)[k - a] == c);
            return false;
        }
        k += 1;
    }
    assert forall|i: int| 0 <= i < s@.subrange(a as int, b as int).len() implies is_name_char(
        #[trigger] s@.subrange(a as int, b as int)[i],
    ) by {
        assert(s@.subrange(a as int, b as int)[i] == s@[a + i]);
    }
    true
}

/// The fields of a line with their positions.
struct Fields {
    chars: Vec<char>,
    ranges: Vec<(usize, usize)>,
}

impl Fields {
    /// The fields agree with the text `s`.
    spec fn of(self, s: Seq<char>) -> bool {
        &&& self.chars@ == s
        &&& self.ranges@.map_values(|p: (usize, usize)| s.subrange(p.0 as int, p.1 as int)) == fields(s)
        &&& forall|k: int| 0 <= k < self.ranges@.len() ==> (#[trigger] self.ranges@[k]).0 <= self.ranges@[k].1 <= s.len()
    }

    fn read(code: &str) -> (f: Fields)
        requires
            code@.len() < usize::MAX,
        ensures
            f.of(code@),
            f.ranges@.len() == fields(code@).len(),
    {
        let chars = chars_of(code);
        let ranges = field_ranges(&chars);
        Fields { chars, ranges }
    }

    /// Whether field `k` spells `word`.
    fn spells(&self, k: usize, word: &[char], Ghost(s): Ghost<Seq<char>>) -> (r: bool)
        requires
            self.of(s),
            k < self.ranges@.len(),
        ensures
            r == (fields(s)[k as int] == word@),
    {
        let (a, b) = self.ranges[k];
        assert(fields(s)[k as int] == s.subrange(a as int, b as int));
        spells(&self.chars, a, b, &word_of(word))
    }

    /// The text of field `k`.
    fn text(&self, code: &str, k: usize) -> (w: String)
        requires
            self.of(code@),
            k < self.ranges@.len(),
        ensures
            w@ == fields(code@)[k as int],
    {
        let (a, b) = self.ranges[k];
        assert(fields(code@)[k as int] == code@.subrange(a as int, b as int));
        code.substring_char(a, b).to_owned()
    }

    /// The texts of the fields from `from` on.
    fn texts_from(&self, code: &str, from: usize) -> (ws: Vec<String>)
        requires
            self.of(code@),
            from <= self.ranges@.len(),
        ensures
            ws.deep_view() == fields(code@).skip(from as int),
    {
        let mut ws: Vec<String> = Vec::new();
        let mut k = from;
        let ghost f = fields(code@);
        while k < self.ranges.len()
            invariant
                self.of(code@),
                f == fields(code@),
                from <= k <= self.ranges@.len(),
                self.ranges@.len() == f.len(),
                ws.deep_view() =~= f.subrange(from as int, k as int),
            decreases self.ranges@.len() - k,
        {
            let ghost before = ws.deep_view();
            let w = self.text(code, k);
            ws.push(w);
            assert(ws.deep_view() =~= before.push(f[k as int]));
            k += 1;
        }
        assert(f.subrange(from as int, k as int) =~= f.skip(from as int));
        ws
    }
}

/// Reads `if left comparitor right`; both sides hold no comparitor character.
pub fn if_(code: &str) -> (r: Result<Statement, ParseError>)
    requires
        code@.len() < usize::MAX,
    ensures
        match r {
            Ok(st) => if_of(code@) == Some(st@),
            Err(_) => if_of(code@) is None,
        },
{
    let ghost s = code@;
    let f = Fields::read(code);
    proof {
        assert(f.ranges@.len() == fields(s).len());
    }
    if f.ranges.len() != 4 || !f.spells(0, &['i', 'f'], Ghost(s)) {
        assert(['i', 'f']@ =~= seq!['i', 'f']);
        return Err(ParseError);
    }
    assert(['i', 'f']@ =~= seq!['i', 'f']);
    let (la, lb) = f.ranges[1];
    let (ca, cb) = f.ranges[2];
    let (ra, rb) = f.ranges[3];
    assert(fields(s)[1] == s.subrange(la as int, lb as int));
    assert(fields(s)[2] == s.subrange(ca as int, cb as int));
    assert(fields(s)[3] == s.subrange(ra as int, rb as int));
    let comparitor = match read_comparitor(&f.chars, ca, cb) {
        Some(c) => c,
        None => return Err(ParseError),
    };
    if !is_operand_at(&f.chars, la, lb) || !is_operand_at(&f.chars, ra, rb) {
        return Err(ParseError);
    }
    Ok(Statement::If { left: f.text(code, 1), comparitor, right: f.text(code, 3) })
}

/// Reads `else`.
pub fn else_(code: &str) -> (r: Result<Statement, ParseError>)
    requires
        code@.len() < usize::MAX,
    ensures
        match r {
            Ok(st) => else_of(code@) == Some(st@),
            Err(_) => else_of(code@) is None,
        },
{
    let f = Fields::read(code);
    assert(['e', 'l', 's', 'e']@ =~= seq!['e', 'l', 's', 'e']);
    if f.ranges.len() == 1 && f.spells(0, &['e', 'l', 's', 'e'], Ghost(code@)) {
        Ok(Statement::Else)
    } else {
        Err(ParseError)
    }
}

/// Reads `end`.
pub fn end_(code: &str) -> (r: Result<Statement, ParseError>)
    requires
        code@.len() < usize::MAX,
    ensures
        match r {
            Ok(st) => end_of(code@) == Some(st@),
            Err(_) => end_of(code@) is None,
        },
{
    let f = Fields::read(code);
    assert(['e', 'n', 'd']@ =~= seq!['e', 'n', 'd']);
    if f.ranges.len() == 1 && f.spells(0, &['e', 'n', 'd'], Ghost(code@)) {
        Ok(Statement::End)
    } else {
        Err(ParseError)
    }
}

/// Reads `fn name parameter*`, where the name and every parameter are made of
/// letters, digits and underscores.
pub fn fn_(code: &str) -> (r: Result<Statement, ParseError>)
    requires
        code@.len() < usize::MAX,
    ensures
        match r {
            Ok(st) => fn_of(code@) == Some(st@),
            Err(_) => fn_of(code@) is None,
        },
{
    let ghost s = code@;
    let f = Fields::read(code);
    assert(['f', 'n']@ =~= seq!['f', 'n']);
    if f.ranges.len() < 2 || !f.spells(0, &['f', 'n'], Ghost(s)) {
        return Err(ParseError);
    }
    let mut k: usize = 1;
    while k < f.ranges.len()
        invariant
            s == code@,
            f.of(s),
            f.ranges@.len() == fields(s).len(),
            1 <= k <= f.ranges@.len(),
            forall|i: int| 1 <= i < k ==> is_name(#[trigger] fields(s)[i]),
        decreases f.ranges@.len() - k,
    {
        let (a, b) = f.ranges[k];
        assert(fields(s)[k as int] == s.subrange(a as int, b as int));
        if !is_name_at(&f.chars, a, b) {
            assert(!is_name(fields(s)[k as int]));
            return Err(ParseError);
        }
        k += 1;
    }
    Ok(Statement::Function { name: f.text(code, 1), args: f.texts_from(code, 2) })
}

/// Reads `for variable in value*`, where the variable is made of letters,
/// digits and underscores.
pub fn for_(code: &str) -> (r: Result<Statement, ParseError>)
    requires
        code@.len() < usize::MAX,
    ensures
        match r {
            Ok(st) => for_of(code@) == Some(st@),
            Err(_) => for_of(code@) is None,
        },
{
    let ghost s = code@;
    let f = Fields::read(code);
    assert(['f', 'o', 'r']@ =~= seq!['f', 'o', 'r']);
    assert(['i', 'n']@ =~= seq!['i', 'n']);
    if f.ranges.len() < 3 || !f.spells(0, &['f', 'o', 'r'], Ghost(s)) || !f.spells(
        2,
        &['i', 'n'],
        Ghost(s),
    ) {
        return Err(ParseError);
    }
    let (a, b) = f.ranges[1];
    assert(fields(s)[1] == s.subrange(a as int, b as int));
    if !is_name_at(&f.chars, a, b) {
        return Err(ParseError);
    }
    Ok(Statement::For { variable: f.text(code, 1), values: f.texts_from(code, 3) })
}

/// Reads one line of a script: the first of `if`, `else`, `end`, `fn` and
/// `for` that reads it, or else its pipelines. It always succeeds.
pub fn parse_(code: &str) -> (r: Result<Statement, ParseError>)
    requires
        code@.len() < usize::MAX,
    ensures
        r matches Ok(st) && st@ == statement_of(code@),
{
    if let Ok(st) = if_(code) {
        return Ok(st);
    }
    if let Ok(st) = else_(code) {
        return Ok(st);
    }
    if let Ok(st) = end_(code) {
        return Ok(st);
    }
    if let Ok(st) = fn_(code) {
        return Ok(st);
    }
    if let Ok(st) = for_(code) {
        return Ok(st);
    }
    pipelines(code)
}

/// The statement of one line of a script; a line that no rule reads is
/// taken as holding no pipeline.
pub fn parse(code: &str) -> (st: Statement)
    requires
        code@.len() < usize::MAX,
    ensures
        st@ == statement_of(code@),
{
    match parse_(code) {
        Ok(code_ok) => code_ok,
        Err(_) => Statement::Pipelines(Vec::new()),
    }
}

/// A blank text has no fields.
proof fn lemma_blank_fields(s: Seq<char>, i: int)
    requires
        0 <= i <= s.len(),
        forall|k: int| 0 <= k < s.len() ==> is_blank(#[trigger] s[k]),
    ensures
        fields_from(s, i).len() == 0,
    decreases s.len() - i,
{
    if i < s.len() {
        lemma_blank_fields(s, i + 1);
    }
}

/// A line of blanks alone is no keyword statement and holds no pipeline.
pub proof fn law_blank_line_is_empty(s: Seq<char>)
    requires
        s.len() < usize::MAX,
        forall|k: int| 0 <= k < s.len() ==> is_blank(#[trigger] s[k]),
    ensures
        statement_of(s) == StatementView::Pipelines(Seq::empty()),
{
    lemma_blank_fields(s, 0);
    law_blank_script_has_no_pipelines(s);
    if s.len() > 0 {
        crate::splitter::lemma_initial_invariant(s);
    }
    assert(pipelines_of(s) =~= Seq::<PipelineView>::empty());
}

/// A line that starts with `#` and holds no newline is a comment: no keyword
/// statement and no pipeline.
pub proof fn law_comment_line_is_empty(s: Seq<char>)
    requires
        s.len() < usize::MAX,
        s.len() > 0,
        s[0] == '#',
        forall|k: int| 0 <= k < s.len() ==> #[trigger] s[k] != '\n',
    ensures
        statement_of(s) == StatementView::Pipelines(Seq::empty()),
{
    lemma_field_end(s, 0);
    let first = fields(s)[0];
    assert(first[0] == '#');
    assert(first != seq!['i', 'f']);
    assert(first != seq!['e', 'l', 's', 'e']);
    assert(first != seq!['e', 'n', 'd']);
    assert(first != seq!['f', 'n']);
    assert(first != seq!['f', 'o', 'r']);
    law_lone_comment_has_no_pipelines(s);
    crate::splitter::lemma_initial_invariant(s);
    assert(pipelines_of(s) =~= Seq::<PipelineView>::empty());
}

/// Distinct comparitor fields read as distinct comparitors.
pub proof fn law_distinct_comparitor_fields(w1: Seq<char>, w2: Seq<char>)
    requires
        comparitor_of(w1) is Some,
        comparitor_of(w1) == comparitor_of(w2),
    ensures
        w1 == w2,
{
}

/// A line whose fields are `if`, an operand, a comparitor and an operand is
/// that `if` statement, and each comparitor field reads as its own
/// comparitor: `==` as equal, `!=` as not equal, `<` as less than, `<=` as
/// less than or equal, `>` as greater than, `>=` as greater than or equal.
pub proof fn law_if_line(s: Seq<char>)
    requires
        fields(s).len() == 4,
        fields(s)[0] == seq!['i', 'f'],
        is_operand(fields(s)[1]),
        is_operand(fields(s)[3]),
        comparitor_of(fields(s)[2]) is Some,
    ensures
        statement_of(s) matches StatementView::If { left, comparitor, right } && {
            &&& left == fields(s)[1]
            &&& right == fields(s)[3]
            &&& (comparitor == Comparitor::Equal <==> fields(s)[2] == seq!['=', '='])
            &&& (comparitor == Comparitor::NotEqual <==> fields(s)[2] == seq!['!', '='])
            &&& (comparitor == Comparitor::LessThan <==> fields(s)[2] == seq!['<'])
            &&& (comparitor == Comparitor::LessThanOrEqual <==> fields(s)[2] == seq!['<', '='])
            &&& (comparitor == Comparitor::GreaterThan <==> fields(s)[2] == seq!['>'])
            &&& (comparitor == Comparitor::GreaterThanOrEqual <==> fields(s)[2] == seq!['>', '='])
        },
{
    let w = fields(s)[2];
    assert(seq!['=', '='] != seq!['!', '=']) by { assert(seq!['=', '='][0] != seq!['!', '='][0]); }
    assert(seq!['<', '='] != seq!['>', '=']) by { assert(seq!['<', '='][0] != seq!['>', '='][0]); }
    assert(seq!['=', '='] != seq!['<', '=']) by { assert(seq!['=', '='][0] != seq!['<', '='][0]); }
    assert(seq!['=', '='] != seq!['>', '=']) by { assert(seq!['=', '='][0] != seq!['>', '='][0]); }
    assert(seq!['!', '='] != seq!['<', '=']) by { assert(seq!['!', '='][0] != seq!['<', '='][0]); }
    assert(seq!['!', '='] != seq!['>', '=']) by { assert(seq!['!', '='][0] != seq!['>', '='][0]); }
    assert(seq!['<'] != seq!['>']) by { assert(seq!['<'][0] != seq!['>'][0]); }
    let eq = seq!['=', '='];
    let ne = seq!['!', '='];
    let lt = seq!['<'];
    let le = seq!['<', '='];
    let gt = seq!['>'];
    let ge = seq!['>', '='];
    assert(lt.len() == 1 && gt.len() == 1 && eq.len() == 2 && ne.len() == 2 && le.len() == 2
        && ge.len() == 2);
    assert(if_of(s) is Some);
    assert(statement_of(s) == if_of(s).unwrap());
    let c = comparitor_of(w).unwrap();
    if w == eq {
        assert(c == Comparitor::Equal);
        assert(w != ne && w != lt && w != le && w != gt && w != ge);
    } else if w == ne {
        assert(c == Comparitor::NotEqual);
        assert(w != lt && w != le && w != gt && w != ge);
    } else if w == le {
        assert(c == Comparitor::LessThanOrEqual);
        assert(w != lt && w != gt && w != ge);
    } else if w == ge {
        assert(c == Comparitor::GreaterThanOrEqual);
        assert(w != lt && w != gt);
    } else if w == lt {
        assert(c == Comparitor::LessThan);
    } else {
        assert(w == gt);
        assert(c == Comparitor::GreaterThan);
    }
}

/// The first field of a keyword line, and the keywords' spellings, differ
/// when their first letters or lengths do.
proof fn lemma_keywords_differ(w: Seq<char>)
    ensures
        w == seq!['f', 'o', 'r'] ==> w != seq!['i', 'f'] && w != seq!['e', 'l', 's', 'e'] && w
            != seq!['e', 'n', 'd'] && w != seq!['f', 'n'],
        w == seq!['f', 'n'] ==> w != seq!['i', 'f'] && w != seq!['e', 'l', 's', 'e'] && w != seq![
            'e',
            'n',
            'd',
        ],
        w == seq!['e', 'n', 'd'] ==> w != seq!['i', 'f'] && w != seq!['e', 'l', 's', 'e'],
        w == seq!['e', 'l', 's', 'e'] ==> w != seq!['i', 'f'],
{
    if w == seq!['f', 'o', 'r'] {
        assert(w[0] != seq!['i', 'f'][0]);
        assert(w[0] != seq!['e', 'l', 's', 'e'][0]);
        assert(w[0] != seq!['e', 'n', 'd'][0]);
        assert(w.len() != seq!['f', 'n'].len());
    }
    if w == seq!['f', 'n'] {
        assert(w[0] != seq!['i', 'f'][0]);
        assert(w[0] != seq!['e', 'l', 's', 'e'][0]);
        assert(w[0] != seq!['e', 'n', 'd'][0]);
    }
    if w == seq!['e', 'n', 'd'] {
        assert(w[0] != seq!['i', 'f'][0]);
        assert(w.len() != seq!['e', 'l', 's', 'e'].len());
    }
    if w == seq!['e', 'l', 's', 'e'] {
        assert(w[0] != seq!['i', 'f'][0]);
    }
}

/// A line whose only field is `else` is the `else` statement.
pub proof fn law_else_line(s: Seq<char>)
    requires
        fields(s).len() == 1,
        fields(s)[0] == seq!['e', 'l', 's', 'e'],
    ensures
        statement_of(s) == StatementView::Else,
{
    lemma_keywords_differ(fields(s)[0]);
}

/// A line whose only field is `end` is the `end` statement.
pub proof fn law_end_line(s: Seq<char>)
    requires
        fields(s).len() == 1,
        fields(s)[0] == seq!['e', 'n', 'd'],
    ensures
        statement_of(s) == StatementView::End,
{
    lemma_keywords_differ(fields(s)[0]);
}

/// A line `fn NAME p1 .. pn`, all of them names, is that function
/// statement: its name is `NAME` and its parameters are `p1 .. pn`.
pub proof fn law_fn_line(s: Seq<char>)
    requires
        fields(s).len() >= 2,
        fields(s)[0] == seq!['f', 'n'],
        forall|i: int| 1 <= i < fields(s).len() ==> is_name(#[trigger] fields(s)[i]),
    ensures
        statement_of(s) matches StatementView::Function { name, args } && name == fields(s)[1]
            && args.len() + 2 == fields(s).len() && forall|i: int|
            0 <= i < args.len() ==> #[trigger] args[i] == fields(s)[i + 2],
{
    lemma_keywords_differ(fields(s)[0]);
}

/// A line `for NAME in v1 .. vn`, where `NAME` is a name, is that loop: its
/// variable is `NAME` and its values are `v1 .. vn`, whatever they are.
pub proof fn law_for_line(s: Seq<char>)
    requires
        fields(s).len() >= 3,
        fields(s)[0] == seq!['f', 'o', 'r'],
        is_name(fields(s)[1]),
        fields(s)[2] == seq!['i', 'n'],
    ensures
        statement_of(s) matches StatementView::For { variable, values } && variable == fields(s)[1]
            && values.len() + 3 == fields(s).len() && forall|i: int|
            0 <= i < values.len() ==> #[trigger] values[i] == fields(s)[i + 3],
{
    lemma_keywords_differ(fields(s)[0]);
}

/// A line whose first field is no keyword is read as its pipelines.
pub proof fn law_other_lines_are_pipelines(s: Seq<char>)
    requires
        fields(s).len() == 0 || (fields(s)[0] != seq!['i', 'f'] && fields(s)[0] != seq![
            'e',
            'l',
            's',
            'e',
        ] && fields(s)[0] != seq!['e', 'n', 'd'] && fields(s)[0] != seq!['f', 'n'] && fields(s)[0]
            != seq!['f', 'o', 'r']),
    ensures
        statement_of(s) == StatementView::Pipelines(pipelines_of(s)),
{
}

} // verus!
