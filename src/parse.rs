use vstd::prelude::*;
use crate::instruction::{Instruction, InsnView, Label, ParseError, insn_of, insn_result_view, is_space, space};

verus! {

/// The upper-case form of an ASCII letter; every other character is kept.
pub open spec fn upper_char(c: char) -> char {
    if 'a' <= c && c <= 'z' {
        ((c as u8) - 32u8) as char
    } else {
        c
    }
}

/// The lower-case form of an ASCII letter; every other character is kept.
pub open spec fn lower_char(c: char) -> char {
    if 'A' <= c && c <= 'Z' {
        ((c as u8) + 32u8) as char
    } else {
        c
    }
}

pub open spec fn fold_upper(s: Seq<char>) -> Seq<char> {
    s.map_values(|c: char| upper_char(c))
}

pub open spec fn fold_lower(s: Seq<char>) -> Seq<char> {
    s.map_values(|c: char| lower_char(c))
}

/// Relies on `str::to_ascii_uppercase`: ASCII letters `a`-`z` become `A`-`Z`
/// and every other character is kept.
#[verifier::external_body]
fn to_upper(s: &str) -> (r: String)
    ensures
        r@ == fold_upper(s@),
{
    s.to_ascii_uppercase()
}

/// The first position at or after `i` that holds no white space.
pub open spec fn skip_space(u: Seq<char>, i: int) -> int
    decreases u.len() - i,
{
    if 0 <= i < u.len() && is_space(u[i]) {
        skip_space(u, i + 1)
    } else {
        i
    }
}

/// The first position at or after `i` that holds white space.
pub open spec fn word_end(u: Seq<char>, i: int) -> int
    decreases u.len() - i,
{
    if 0 <= i < u.len() && !is_space(u[i]) {
        word_end(u, i + 1)
    } else {
        i
    }
}

/// The last `:` strictly between `a` and `c`, or `a` where there is none.
pub open spec fn last_colon(u: Seq<char>, a: int, c: int) -> int
    decreases c - a,
{
    if c - 1 <= a {
        a
    } else if u[c - 1] == ':' {
        c - 1
    } else {
        last_colon(u, a, c - 1)
    }
}

/// A source line as a mathematical value.
pub struct LineView {
    pub label: Option<Seq<char>>,
    pub insn: Option<InsnView>,
}

impl LineView {
    /// True unless the line holds a `MOV` to a literal.
    pub open spec fn well_formed(self) -> bool {
        self.insn matches Some(i) ==> i.well_formed()
    }
}

/// A source line, read after case folding as
/// `[space] [LABEL ":"] [space] [INSTRUCTION]`: the label is the first word
/// up to its last colon (a colon at its very start does not count), and the
/// instruction is the rest of the line from its next non-space character.
pub open spec fn line_of(line: Seq<char>) -> Result<LineView, ParseError> {
    let u = fold_upper(line);
    let i0 = skip_space(u, 0);
    let c = last_colon(u, i0, word_end(u, i0));
    let label = if c > i0 { Some(u.subrange(i0, c)) } else { None };
    let k = skip_space(u, if c > i0 { c + 1 } else { i0 });
    if k < u.len() {
        match insn_of(u.subrange(k, u.len() as int)) {
            Ok(i) => Ok(LineView { label, insn: Some(i) }),
            Err(e) => Err(e),
        }
    } else {
        Ok(LineView { label, insn: None })
    }
}

fn skip_spaces(u: &str, n: usize, i: usize) -> (r: usize)
    requires
        n == u@.len(),
        i <= n,
    ensures
        r == skip_space(u@, i as int),
        i <= r <= n,
{
    let mut k = i;
    while k < n && space(u.get_char(k))
        invariant
            n == u@.len(),
            i <= k <= n,
            skip_space(u@, k as int) == skip_space(u@, i as int),
        decreases n - k,
    {
        k = k + 1;
    }
    k
}

fn find_word_end(u: &str, n: usize, i: usize) -> (r: usize)
    requires
        n == u@.len(),
        i <= n,
    ensures
        r == word_end(u@, i as int),
        i <= r <= n,
{
    let mut k = i;
    while k < n && !space(u.get_char(k))
        invariant
            n == u@.len(),
            i <= k <= n,
            word_end(u@, k as int) == word_end(u@, i as int),
        decreases n - k,
    {
        k = k + 1;
    }
    k
}

fn find_last_colon(u: &str, a: usize, c: usize) -> (r: usize)
    requires
        a <= c <= u@.len(),
    ensures
        r == last_colon(u@, a as int, c as int),
        r == a || a < r < c,
{
    let mut k = c;
    while k - a > 1 && u.get_char(k - 1) != ':'
        invariant
            a <= k <= c <= u@.len(),
            last_colon(u@, a as int, k as int) == last_colon(u@, a as int, c as int),
        decreases k,
    {
        k = k - 1;
    }
    if k - a > 1 {
        k - 1
    } else {
        a
    }
}

/// One line of a program: an optional label and an optional instruction.
#[derive(Debug, PartialEq)]
pub struct Line {
    pub label: Option<Label>,
    pub insn: Option<Instruction>,
}

impl View for Line {
    type V = LineView;

    open spec fn view(&self) -> LineView {
        LineView {
            label: match self.label {
                Some(l) => Some(l@),
                None => None,
            },
            insn: match self.insn {
                Some(i) => Some(i@),
                None => None,
            },
        }
    }
}

pub open spec fn line_result_view(r: Result<Line, ParseError>) -> Result<LineView, ParseError> {
    match r {
        Ok(l) => Ok(l@),
        Err(e) => Err(e),
    }
}

impl Line {
    /// Reads one source line, ignoring the case of letters.
    pub fn from_str(line: &str) -> (r: Result<Line, ParseError>)
        ensures
            line_result_view(r) == line_of(line@),
            r matches Ok(l) ==> l@.well_formed(),
    {
        let upper = to_upper(line);
        let u = upper.as_str();
        let n = u.unicode_len();
        let i0 = skip_spaces(u, n, 0);
        let c = find_last_colon(u, i0, find_word_end(u, n, i0));
        let label = if c > i0 {
            Some(u.substring_char(i0, c).to_owned())
        } else {
            None
        };
        let k = skip_spaces(u, n, if c > i0 { c + 1 } else { i0 });
        if k < n {
            match Instruction::from_str(u.substring_char(k, n)) {
                Ok(i) => Ok(Line { label, insn: Some(i) }),
                Err(e) => Err(e),
            }
        } else {
            Ok(Line { label, insn: None })
        }
    }
}

/// The pieces of `t` between newlines; there is always at least one.
pub open spec fn pieces(t: Seq<char>) -> Seq<Seq<char>>
    decreases t.len(),
{
    if t.len() == 0 {
        seq![seq![]]
    } else {
        let prev = pieces(t.drop_last());
        if t.last() == '\n' {
            prev.push(seq![])
        } else {
            prev.update(prev.len() - 1, prev.last().push(t.last()))
        }
    }
}

pub open spec fn strip_cr(s: Seq<char>) -> Seq<char> {
    if s.len() > 0 && s.last() == '\r' {
        s.drop_last()
    } else {
        s
    }
}

/// The lines of a text, as `str::lines` gives them: split at `\n`, a `\r`
/// right before a `\n` dropped, and no empty line after a final `\n`.
pub open spec fn lines_of(t: Seq<char>) -> Seq<Seq<char>> {
    let ps = pieces(t);
    let m = if ps.last().len() == 0 { ps.len() - 1 } else { ps.len() as int };
    Seq::new(m as nat, |k: int| if k < ps.len() - 1 { strip_cr(ps[k]) } else { ps[k] })
}

proof fn lemma_lines_len(t: Seq<char>)
    ensures
        lines_of(t).len() <= t.len() + 1,
{
    lemma_pieces_len(t);
}

proof fn lemma_pieces_len(t: Seq<char>)
    ensures
        1 <= pieces(t).len() <= t.len() + 1,
    decreases t.len(),
{
    if t.len() > 0 {
        lemma_pieces_len(t.drop_last());
    }
}

/// Splits a program text into its lines.
fn split_lines<'a>(p: &'a str) -> (r: Vec<&'a str>)
    ensures
        r@.len() == lines_of(p@).len(),
        forall|k: int| 0 <= k < r@.len() ==> (#[trigger] r@[k])@ == lines_of(p@)[k],
{
    let n = p.unicode_len();
    let mut lines: Vec<&'a str> = Vec::new();
    let ghost mut raw: Seq<Seq<char>> = seq![];
    let mut start: usize = 0;
    let mut i: usize = 0;
    assert(p@.subrange(0, 0) =~= Seq::<char>::empty());
    assert(raw.push(p@.subrange(0, 0)) =~= seq![seq![]]);
    while i < n
        invariant
            n == p@.len(),
            start <= i <= n,
            pieces(p@.subrange(0, i as int)) == raw.push(p@.subrange(start as int, i as int)),
            lines@.len() == raw.len(),
            forall|k: int| 0 <= k < raw.len() ==> (#[trigger] lines@[k])@ == strip_cr(raw[k]),
        decreases n - i,
    {
        let c = p.get_char(i);
        let ghost piece = p@.subrange(start as int, i as int);
        assert(p@.subrange(0, i + 1).drop_last() =~= p@.subrange(0, i as int));
        if c == '\n' {
            let line = if i > start && p.get_char(i - 1) == '\r' {
                assert(p@.subrange(start as int, i - 1) =~= piece.drop_last());
                p.substring_char(start, i - 1)
            } else {
                p.substring_char(start, i)
            };
            lines.push(line);
            proof {
                raw = raw.push(piece);
            }
            start = i + 1;
            assert(p@.subrange(start as int, i + 1) =~= seq![]);
        } else {
            assert(p@.subrange(start as int, i + 1) =~= piece.push(c));
        }
        i = i + 1;
    }
    assert(p@.subrange(0, n as int) =~= p@);
    if start < n {
        lines.push(p.substring_char(start, n));
    }
    assert(lines@.len() == lines_of(p@).len());
    lines
}

/// Whether every line reads: the lines in order, or the error of the first
/// line that does not.
pub open spec fn lines_result(ls: Seq<Seq<char>>) -> Result<Seq<LineView>, ParseError>
    decreases ls.len(),
{
    if ls.len() == 0 {
        Ok(seq![])
    } else {
        match lines_result(ls.drop_last()) {
            Err(e) => Err(e),
            Ok(v) => match line_of(ls.last()) {
                Err(e) => Err(e),
                Ok(l) => Ok(v.push(l)),
            },
        }
    }
}

proof fn lemma_lines_result_len(ls: Seq<Seq<char>>)
    ensures
        lines_result(ls) matches Ok(v) ==> v.len() == ls.len(),
    decreases ls.len(),
{
    if ls.len() > 0 {
        lemma_lines_result_len(ls.drop_last());
    }
}

proof fn lemma_lines_result_err(ls: Seq<Seq<char>>, k: int)
    requires
        0 <= k <= ls.len(),
        lines_result(ls.subrange(0, k)) is Err,
    ensures
        lines_result(ls) == lines_result(ls.subrange(0, k)),
    decreases ls.len() - k,
{
    if k < ls.len() {
        assert(ls.drop_last().subrange(0, k) =~= ls.subrange(0, k));
        lemma_lines_result_err(ls.drop_last(), k);
    } else {
        assert(ls.subrange(0, k) =~= ls);
    }
}

pub open spec fn lines_view(v: Seq<Line>) -> Seq<LineView> {
    v.map_values(|l: Line| l@)
}

/// Reads every line of a program text.
pub fn parse_program(p: &str) -> (r: Result<Vec<Line>, ParseError>)
    ensures
        match r {
            Ok(v) => lines_result(lines_of(p@)) == Ok::<_, ParseError>(lines_view(v@)),
            Err(e) => lines_result(lines_of(p@)) == Err::<Seq<LineView>, _>(e),
        },
        r matches Ok(v) ==> forall|k: int| 0 <= k < v@.len() ==> (#[trigger] v@[k])@.well_formed(),
{
    let texts = split_lines(p);
    let ghost ls = lines_of(p@);
    let mut lines: Vec<Line> = Vec::new();
    let mut k: usize = 0;
    assert(ls.subrange(0, 0) =~= Seq::<Seq<char>>::empty());
    assert(lines_view(lines@) =~= Seq::<LineView>::empty());
    while k < texts.len()
        invariant
            ls == lines_of(p@),
            texts@.len() == ls.len(),
            forall|j: int| 0 <= j < texts@.len() ==> (#[trigger] texts@[j])@ == ls[j],
            k <= texts@.len(),
            lines_result(ls.subrange(0, k as int)) == Ok::<_, ParseError>(lines_view(lines@)),
            forall|j: int| 0 <= j < lines@.len() ==> (#[trigger] lines@[j])@.well_formed(),
        decreases texts.len() - k,
    {
        assert(ls.subrange(0, k + 1).drop_last() =~= ls.subrange(0, k as int));
        assert(ls.subrange(0, k + 1).last() == texts@[k as int]@);
        let ghost before = lines@;
        let read = Line::from_str(texts[k]);
        assert(line_result_view(read) == line_of(ls.subrange(0, k + 1).last()));
        match read {
            Ok(l) => {
                lines.push(l);
                assert(lines_view(lines@) =~= lines_view(before).push(l@));
            },
            Err(e) => {
                assert(lines_result(ls.subrange(0, k + 1)) == Err::<Seq<LineView>, ParseError>(e));
                proof {
                    let k1: int = k + 1;
                    assert(lines_result(ls.subrange(0, k1)) is Err);
                    lemma_lines_result_err(ls, k1);
                    assert(lines_result(ls) == lines_result(ls.subrange(0, k1)));
                }
                return Err(e);
            },
        }
        k = k + 1;
    }
    assert(ls.subrange(0, k as int) =~= ls);
    Ok(lines)
}

/// An instruction and the 0-based number of the source line it came from.
#[derive(Debug, PartialEq)]
pub struct InstructionLine {
    insn: Instruction,
    srcline: u32,
}

impl View for InstructionLine {
    type V = (InsnView, u32);

    closed spec fn view(&self) -> (InsnView, u32) {
        (self.insn@, self.srcline)
    }
}

impl InstructionLine {
    pub fn insn(&self) -> (r: &Instruction)
        ensures
            r@ == self@.0,
    {
        &self.insn
    }

    pub fn srcline(&self) -> (r: u32)
        ensures
            r == self@.1,
    {
        self.srcline
    }
}

/// A parsed program as a mathematical value: its instructions with their
/// source lines, and each label with the index of the instruction it names.
pub struct ExeView {
    pub insns: Seq<(InsnView, u32)>,
    pub labels: Seq<(Seq<char>, u32)>,
}

/// The index bound to `name` by the first entry of `t` that has it.
pub open spec fn find_label(t: Seq<(Seq<char>, u32)>, name: Seq<char>) -> Option<u32>
    decreases t.len(),
{
    if t.len() == 0 {
        None
    } else if t[0].0 == name {
        Some(t[0].1)
    } else {
        find_label(t.drop_first(), name)
    }
}

/// True unless `i` jumps to a label that is missing from `t` or bound past
/// the last of `total` instructions.
pub open spec fn jump_ok(t: Seq<(Seq<char>, u32)>, total: nat, i: InsnView) -> bool {
    i matches InsnView::J(_, name) ==> (find_label(t, name) matches Some(b) && b < total)
}

impl ExeView {
    /// The invariant of every parsed program.
    pub open spec fn wf(self) -> bool {
        &&& self.insns.len() <= u32::MAX
        &&& forall|k: int| 0 <= k < self.insns.len() ==> (#[trigger] self.insns[k]).0.well_formed()
        &&& forall|k: int|
            0 <= k < self.insns.len() ==> jump_ok(self.labels, self.insns.len(), #[trigger] self.insns[k].0)
        &&& forall|j: int|
            0 <= j < self.labels.len() ==> (#[trigger] self.labels[j]).1 < self.insns.len()
                || (self.insns.len() == 0 && self.labels[j].1 == 0)
        &&& forall|i: int, j: int|
            0 <= i < j < self.labels.len() ==> (#[trigger] self.labels[i]).0 != (#[trigger] self.labels[j]).0
    }
}

/// The instructions of the lines, in order, each with its line number.
pub open spec fn insns_of(ls: Seq<LineView>) -> Seq<(InsnView, u32)>
    decreases ls.len(),
{
    if ls.len() == 0 {
        seq![]
    } else {
        let prev = insns_of(ls.drop_last());
        match ls.last().insn {
            Some(i) => prev.push((i, (ls.len() - 1) as u32)),
            None => prev,
        }
    }
}

/// Each label in order of first appearance, bound to the index of the first
/// instruction at or after its line (the instruction count where none is).
pub open spec fn label_table(ls: Seq<LineView>) -> Seq<(Seq<char>, u32)>
    decreases ls.len(),
{
    if ls.len() == 0 {
        seq![]
    } else {
        let prev = label_table(ls.drop_last());
        match ls.last().label {
            Some(n) => if find_label(prev, n) is None {
                prev.push((n, insns_of(ls.drop_last()).len() as u32))
            } else {
                prev
            },
            None => prev,
        }
    }
}

/// True when some label appears again at a place that binds it to another
/// instruction.
pub open spec fn labels_conflict(ls: Seq<LineView>) -> bool
    decreases ls.len(),
{
    if ls.len() == 0 {
        false
    } else {
        labels_conflict(ls.drop_last()) || match ls.last().label {
            Some(n) => match find_label(label_table(ls.drop_last()), n) {
                Some(b) => b != insns_of(ls.drop_last()).len(),
                None => false,
            },
            None => false,
        }
    }
}

/// A label with no instruction after it binds to index 0, where execution
/// goes on after the last instruction.
pub open spec fn wrap_labels(t: Seq<(Seq<char>, u32)>, total: nat) -> Seq<(Seq<char>, u32)> {
    Seq::new(t.len(), |j: int| (t[j].0, if t[j].1 < total { t[j].1 } else { 0 }))
}

/// What a program text means: the lines are read in order (the first bad
/// one rejects the text), then labels are bound, then jumps are checked.
pub open spec fn parse_model(text: Seq<char>) -> Result<ExeView, ParseError> {
    match lines_result(lines_of(text)) {
        Err(e) => Err(e),
        Ok(ls) => {
            let insns = insns_of(ls);
            let table = label_table(ls);
            if labels_conflict(ls) {
                Err(ParseError::DuplicateLabel)
            } else if exists|k: int| 0 <= k < insns.len() && !jump_ok(table, insns.len(), #[trigger] insns[k].0) {
                Err(ParseError::UndefinedLabel)
            } else {
                Ok(ExeView { insns, labels: wrap_labels(table, insns.len()) })
            }
        },
    }
}

/// A parsed program: instructions with their source lines, and the label
/// table.
#[derive(Debug, PartialEq)]
pub struct Executable {
    lines: Vec<InstructionLine>,
    labels: Vec<(Label, u32)>,
}

pub open spec fn table_view(t: Seq<(Label, u32)>) -> Seq<(Seq<char>, u32)> {
    t.map_values(|e: (Label, u32)| (e.0@, e.1))
}

pub open spec fn insn_lines_view(v: Seq<InstructionLine>) -> Seq<(InsnView, u32)> {
    v.map_values(|l: InstructionLine| l@)
}

impl View for Executable {
    type V = ExeView;

    closed spec fn view(&self) -> ExeView {
        ExeView { insns: insn_lines_view(self.lines@), labels: table_view(self.labels@) }
    }
}

proof fn lemma_find_push(t: Seq<(Seq<char>, u32)>, x: (Seq<char>, u32), n: Seq<char>)
    ensures
        find_label(t.push(x), n) == (if find_label(t, n) is Some {
            find_label(t, n)
        } else if x.0 == n {
            Some(x.1)
        } else {
            None
        }),
    decreases t.len(),
{
    if t.len() > 0 {
        assert(t.push(x).drop_first() =~= t.drop_first().push(x));
        assert(t.push(x)[0] == t[0]);
        lemma_find_push(t.drop_first(), x, n);
    } else {
        assert(t.push(x).drop_first() =~= Seq::<(Seq<char>, u32)>::empty());
        assert(t.push(x)[0] == x);
        assert(find_label(t.push(x).drop_first(), n) is None);
    }
}

proof fn lemma_find_none(t: Seq<(Seq<char>, u32)>, n: Seq<char>)
    ensures
        find_label(t, n) is None <==> forall|j: int| 0 <= j < t.len() ==> (#[trigger] t[j]).0 != n,
    decreases t.len(),
{
    if t.len() > 0 {
        lemma_find_none(t.drop_first(), n);
        assert forall|j: int| 1 <= j < t.len() implies #[trigger] t[j] == t.drop_first()[j - 1] by {}
        if find_label(t, n) is None {
            assert forall|j: int| 0 <= j < t.len() implies (#[trigger] t[j]).0 != n by {
                if j > 0 {
                    assert(t[j] == t.drop_first()[j - 1]);
                }
            }
        }
    }
}

proof fn lemma_find_wrap(t: Seq<(Seq<char>, u32)>, total: nat, n: Seq<char>)
    ensures
        find_label(wrap_labels(t, total), n) == match find_label(t, n) {
            Some(b) => Some(if b < total { b } else { 0 }),
            None => None,
        },
    decreases t.len(),
{
    if t.len() > 0 {
        assert(wrap_labels(t, total).drop_first() =~= wrap_labels(t.drop_first(), total));
        lemma_find_wrap(t.drop_first(), total, n);
    }
}

proof fn lemma_conflict_grows(ls: Seq<LineView>, k: int)
    requires
        0 <= k <= ls.len(),
        labels_conflict(ls.subrange(0, k)),
    ensures
        labels_conflict(ls),
    decreases ls.len() - k,
{
    if k < ls.len() {
        assert(ls.drop_last().subrange(0, k) =~= ls.subrange(0, k));
        lemma_conflict_grows(ls.drop_last(), k);
    } else {
        assert(ls.subrange(0, k) =~= ls);
    }
}

/// Finds the index bound to `name`.
fn lookup(t: &Vec<(Label, u32)>, name: &Label) -> (r: Option<u32>)
    ensures
        r == find_label(table_view(t@), name@),
{
    let ghost tv = table_view(t@);
    let mut j: usize = 0;
    assert(tv.subrange(0, tv.len() as int) =~= tv);
    while j < t.len()
        invariant
            tv == table_view(t@),
            j <= t@.len(),
            find_label(tv.subrange(j as int, tv.len() as int), name@) == find_label(tv, name@),
        decreases t.len() - j,
    {
        let ghost rest = tv.subrange(j as int, tv.len() as int);
        assert(rest[0] == tv[j as int]);
        assert(rest.drop_first() =~= tv.subrange(j + 1, tv.len() as int));
        if t[j].0 == *name {
            return Some(t[j].1);
        }
        j = j + 1;
    }
    None
}

impl Executable {
    #[verifier::type_invariant]
    spec fn inv(&self) -> bool {
        self@.wf()
    }

    /// The number of instructions. Every executable meets the invariant of
    /// parsed programs.
    pub fn len(&self) -> (r: usize)
        ensures
            r == self@.insns.len(),
            self@.wf(),
    {
        proof {
            use_type_invariant(self);
        }
        self.lines.len()
    }

    /// The instruction at index `i`.
    pub fn insn_at(&self, i: usize) -> (r: &Instruction)
        requires
            i < self@.insns.len(),
        ensures
            r@ == self@.insns[i as int].0,
    {
        self.lines[i].insn()
    }

    /// The source line of the instruction at index `i`.
    pub fn srcline_at(&self, i: usize) -> (r: u32)
        requires
            i < self@.insns.len(),
        ensures
            r == self@.insns[i as int].1,
    {
        self.lines[i].srcline()
    }

    /// The instruction index that a label names.
    pub fn label_line(&self, name: &Label) -> (r: Option<u32>)
        ensures
            r == find_label(self@.labels, name@),
    {
        lookup(&self.labels, name)
    }
}

/// Parses a program text into an executable, ignoring the case of letters.
pub fn parse(p: &str) -> (r: Result<Executable, ParseError>)
    requires
        p@.len() < u32::MAX,
    ensures
        match r {
            Ok(e) => parse_model(p@) == Ok::<_, ParseError>(e@) && e@.wf(),
            Err(err) => parse_model(p@) == Err::<ExeView, _>(err),
        },
{
    let mut lines = match parse_program(p) {
        Ok(v) => v,
        Err(e) => return Err(e),
    };
    let ghost ls = lines_view(lines@);
    let ghost all = lines@;
    proof {
        lemma_lines_len(p@);
        lemma_lines_result_len(lines_of(p@));
    }
    let n = lines.len();
    let mut insns: Vec<InstructionLine> = Vec::new();
    let mut table: Vec<(Label, u32)> = Vec::new();
    let mut k: usize = 0;
    assert(ls.subrange(0, 0) =~= Seq::<LineView>::empty());
    assert(all.subrange(0, n as int) =~= all);
    while k < n
        invariant
            lines_result(lines_of(p@)) == Ok::<_, ParseError>(ls),
            ls == lines_view(all),
            n == all.len(),
            n <= u32::MAX,
            forall|j: int| 0 <= j < all.len() ==> (#[trigger] all[j])@.well_formed(),
            k <= n,
            lines@ == all.subrange(k as int, n as int),
            insn_lines_view(insns@) == insns_of(ls.subrange(0, k as int)),
            table_view(table@) == label_table(ls.subrange(0, k as int)),
            !labels_conflict(ls.subrange(0, k as int)),
            insns@.len() <= k,
            forall|j: int| 0 <= j < insns@.len() ==> (#[trigger] insns@[j])@.0.well_formed(),
            forall|j: int| 0 <= j < table@.len() ==> (#[trigger] table@[j]).1 <= insns@.len(),
            forall|i: int, j: int|
                0 <= i < j < table@.len() ==> (#[trigger] table_view(table@)[i]).0 != (#[trigger] table_view(table@)[j]).0,
        decreases n - k,
    {
        let ghost pre = ls.subrange(0, k as int);
        assert(ls.subrange(0, k + 1).drop_last() =~= pre);
        assert(ls.subrange(0, k + 1).last() == all[k as int]@);
        let l = lines.remove(0);
        assert(lines@ =~= all.subrange(k + 1, n as int));
        let ghost tv0 = table_view(table@);
        let ghost iv0 = insn_lines_view(insns@);
        if let Some(label) = l.label {
            match lookup(&table, &label) {
                Some(b) => {
                    if b as usize != insns.len() {
                        proof {
                            lemma_conflict_grows(ls, k + 1);
                        }
                        return Err(ParseError::DuplicateLabel);
                    }
                },
                None => {
                    proof {
                        lemma_find_none(tv0, label@);
                    }
                    let bind = insns.len() as u32;
                    table.push((label, bind));
                    assert(table_view(table@) =~= tv0.push((label@, bind)));
                },
            }
        }
        if let Some(insn) = l.insn {
            insns.push(InstructionLine { insn, srcline: k as u32 });
            assert(insn_lines_view(insns@) =~= iv0.push((insn@, k as u32)));
        }
        k = k + 1;
    }
    assert(ls.subrange(0, n as int) =~= ls);
    let total = insns.len();
    let ghost tv = table_view(table@);
    let ghost iv = insn_lines_view(insns@);
    let mut j: usize = 0;
    while j < total
        invariant
            lines_result(lines_of(p@)) == Ok::<_, ParseError>(ls),
            !labels_conflict(ls),
            iv == insns_of(ls),
            tv == label_table(ls),
            total == insns@.len(),
            tv == table_view(table@),
            iv == insn_lines_view(insns@),
            j <= total,
            forall|q: int| 0 <= q < j ==> jump_ok(tv, total as nat, #[trigger] iv[q].0),
        decreases total - j,
    {
        assert(iv[j as int] == insns@[j as int]@);
        if let Instruction::J { cond: _, dst } = insns[j].insn() {
            match lookup(&table, dst) {
                Some(b) => {
                    if b as usize >= total {
                        assert(!jump_ok(tv, total as nat, iv[j as int].0));
                        return Err(ParseError::UndefinedLabel);
                    }
                },
                None => {
                    assert(!jump_ok(tv, total as nat, iv[j as int].0));
                    return Err(ParseError::UndefinedLabel);
                },
            }
        }
        j = j + 1;
    }
    let mut labels: Vec<(Label, u32)> = Vec::new();
    let mut q: usize = 0;
    while q < table.len()
        invariant
            tv == table_view(table@),
            q <= table@.len(),
            table_view(labels@) =~= wrap_labels(tv, total as nat).subrange(0, q as int),
        decreases table.len() - q,
    {
        let bind = if (table[q].1 as usize) < total {
            table[q].1
        } else {
            0
        };
        let ghost before = table_view(labels@);
        labels.push((table[q].0.clone(), bind));
        assert(table_view(labels@) =~= before.push(wrap_labels(tv, total as nat)[q as int]));
        q = q + 1;
    }
    assert(wrap_labels(tv, total as nat).subrange(0, q as int) =~= wrap_labels(tv, total as nat));
    proof {
        let lv = table_view(labels@);
        assert forall|k: int| 0 <= k < iv.len() implies jump_ok(lv, iv.len(), #[trigger] iv[k].0) by {
            if let InsnView::J(_, name) = iv[k].0 {
                lemma_find_wrap(tv, total as nat, name);
            }
        }
        assert((ExeView { insns: iv, labels: lv }).wf());
    }
    Ok(Executable { lines: insns, labels })
}

/// A character map that keeps line breaks where they are and agrees with
/// `upper_char` after upper-casing.
pub open spec fn keeps_lines(g: spec_fn(char) -> char) -> bool {
    forall|c: char|
        ((#[trigger] g(c) == '\n') == (c == '\n')) && ((g(c) == '\r') == (c == '\r'))
            && upper_char(g(c)) == upper_char(c)
}

proof fn lemma_pieces_map(t: Seq<char>, g: spec_fn(char) -> char)
    requires
        keeps_lines(g),
    ensures
        pieces(t.map_values(g)).len() == pieces(t).len(),
        forall|k: int| 0 <= k < pieces(t).len() ==> #[trigger] pieces(t.map_values(g))[k] == pieces(t)[k].map_values(g),
    decreases t.len(),
{
    if t.len() > 0 {
        let u = t.map_values(g);
        assert(u.drop_last() =~= t.drop_last().map_values(g));
        lemma_pieces_map(t.drop_last(), g);
        lemma_pieces_len(t.drop_last());
        let prev = pieces(t.drop_last());
        assert(g(t.last()) == u.last());
        if t.last() == '\n' {
            assert(pieces(t)[prev.len() as int] =~= seq![]);
            assert(pieces(u)[prev.len() as int] =~= seq![]);
            assert forall|k: int| 0 <= k < pieces(t).len() implies #[trigger] pieces(u)[k] == pieces(t)[k].map_values(g) by {
                if k == prev.len() {
                    assert(pieces(t)[k].map_values(g) =~= seq![]);
                }
            }
        } else {
            assert forall|k: int| 0 <= k < pieces(t).len() implies #[trigger] pieces(u)[k] == pieces(t)[k].map_values(g) by {
                if k == prev.len() - 1 {
                    assert(prev.last().push(t.last()).map_values(g) =~= prev.last().map_values(g).push(g(t.last())));
                }
            }
        }
    }
}

proof fn lemma_lines_map(t: Seq<char>, g: spec_fn(char) -> char)
    requires
        keeps_lines(g),
    ensures
        lines_of(t.map_values(g)).len() == lines_of(t).len(),
        forall|k: int| 0 <= k < lines_of(t).len() ==> #[trigger] fold_upper(lines_of(t.map_values(g))[k]) == fold_upper(lines_of(t)[k]),
{
    lemma_pieces_map(t, g);
    lemma_pieces_len(t);
    let ps = pieces(t);
    let pu = pieces(t.map_values(g));
    assert(pu.last() == ps.last().map_values(g));
    assert forall|k: int| 0 <= k < lines_of(t).len() implies #[trigger] fold_upper(lines_of(t.map_values(g))[k]) == fold_upper(lines_of(t)[k]) by {
        let a = ps[k];
        assert(pu[k] == a.map_values(g));
        let b = a.map_values(g);
        if k < ps.len() - 1 {
            if a.len() > 0 && a.last() == '\r' {
                assert(b.last() == '\r');
                assert(fold_upper(b.drop_last()) =~= fold_upper(a.drop_last()));
            } else {
                if b.len() > 0 {
                    assert(b.last() == g(a.last()));
                }
                assert(fold_upper(b) =~= fold_upper(a));
            }
        } else {
            assert(fold_upper(b) =~= fold_upper(a));
        }
    }
}

proof fn lemma_line_of_folded(l: Seq<char>, m: Seq<char>)
    requires
        fold_upper(l) == fold_upper(m),
    ensures
        line_of(l) == line_of(m),
{
}

proof fn lemma_lines_result_same(a: Seq<Seq<char>>, b: Seq<Seq<char>>)
    requires
        a.len() == b.len(),
        forall|k: int| 0 <= k < a.len() ==> #[trigger] fold_upper(a[k]) == fold_upper(b[k]),
    ensures
        lines_result(a) == lines_result(b),
    decreases a.len(),
{
    if a.len() > 0 {
        lemma_lines_result_same(a.drop_last(), b.drop_last());
        lemma_line_of_folded(a.last(), b.last());
    }
}

/// Letters may be written in either case: a text means what its upper-case
/// and its lower-case forms mean.
pub proof fn lemma_parse_ignores_case(text: Seq<char>)
    ensures
        parse_model(fold_lower(text)) == parse_model(fold_upper(text)),
        parse_model(fold_upper(text)) == parse_model(text),
{
    let lo = |c: char| lower_char(c);
    let up = |c: char| upper_char(c);
    assert(keeps_lines(lo));
    assert(keeps_lines(up));
    lemma_lines_map(text, lo);
    lemma_lines_map(text, up);
    assert(fold_lower(text) == text.map_values(lo));
    assert(fold_upper(text) == text.map_values(up));
    lemma_lines_result_same(lines_of(fold_lower(text)), lines_of(text));
    lemma_lines_result_same(lines_of(fold_upper(text)), lines_of(text));
}

/// The label of line `l`, if any, has an entry in `t`.
pub open spec fn label_known(t: Seq<(Seq<char>, u32)>, l: LineView) -> bool {
    l.label matches Some(n) ==> find_label(t, n) is Some
}

proof fn lemma_table_facts(ls: Seq<LineView>)
    requires
        ls.len() <= u32::MAX,
    ensures
        insns_of(ls).len() <= ls.len(),
        forall|j: int| 0 <= j < label_table(ls).len() ==> (#[trigger] label_table(ls)[j]).1 <= insns_of(ls).len(),
        forall|i: int, j: int|
            0 <= i < j < label_table(ls).len() ==> (#[trigger] label_table(ls)[i]).0 != (#[trigger] label_table(ls)[j]).0,
        forall|k: int| 0 <= k < ls.len() ==> label_known(label_table(ls), #[trigger] ls[k]),
    decreases ls.len(),
{
    if ls.len() > 0 {
        let pre = ls.drop_last();
        lemma_table_facts(pre);
        let prev = label_table(pre);
        assert forall|k: int| 0 <= k < pre.len() implies #[trigger] pre[k] == ls[k] by {}
        if let Some(n) = ls.last().label {
            if find_label(prev, n) is None {
                let x = (n, insns_of(pre).len() as u32);
                lemma_find_none(prev, n);
                assert forall|m: Seq<char>| #[trigger] find_label(prev, m) is Some implies find_label(prev.push(x), m) is Some by {
                    lemma_find_push(prev, x, m);
                }
                lemma_find_push(prev, x, n);
                assert(label_table(ls) == prev.push(x));
            }
        }
        assert forall|k: int| 0 <= k < ls.len() implies label_known(label_table(ls), #[trigger] ls[k]) by {
            if k < pre.len() {
                assert(pre[k] == ls[k]);
                assert(label_known(prev, pre[k]));
            }
        }
    }
}

/// In a parsed program every label names an instruction (when there is
/// one), every jump names a label bound to an instruction, and every label
/// written in the text has an entry.
pub proof fn lemma_labels_resolve(text: Seq<char>)
    requires
        text.len() < u32::MAX,
        parse_model(text) is Ok,
    ensures
        ({
            let e = parse_model(text)->Ok_0;
            let ls = lines_result(lines_of(text))->Ok_0;
            &&& forall|j: int|
                0 <= j < e.labels.len() && e.insns.len() > 0 ==> (#[trigger] e.labels[j]).1 < e.insns.len()
            &&& forall|k: int| 0 <= k < e.insns.len() ==> jump_ok(e.labels, e.insns.len(), #[trigger] e.insns[k].0)
            &&& forall|k: int| 0 <= k < ls.len() ==> label_known(e.labels, #[trigger] ls[k])
        }),
{
    let ls = lines_result(lines_of(text))->Ok_0;
    let e = parse_model(text)->Ok_0;
    let total = insns_of(ls).len();
    let table = label_table(ls);
    lemma_lines_len(text);
    lemma_lines_result_len(lines_of(text));
    lemma_table_facts(ls);
    assert forall|k: int| 0 <= k < e.insns.len() implies jump_ok(e.labels, e.insns.len(), #[trigger] e.insns[k].0) by {
        assert(jump_ok(table, total, e.insns[k].0));
        if let InsnView::J(_, t) = e.insns[k].0 {
            lemma_find_wrap(table, total, t);
        }
    }
    assert forall|k: int| 0 <= k < ls.len() implies label_known(e.labels, #[trigger] ls[k]) by {
        if let Some(n) = ls[k].label {
            lemma_find_wrap(table, total, n);
        }
    }
}

} // verus!
