use vstd::prelude::*;

verus! {

/// A direction a node can read from or write to.
///
/// `Up`, `Down`, `Left` and `Right` name the four neighbours; `Any` and
/// `Last` only select one of them when an instruction runs.
#[derive(Clone, Copy, Debug, PartialEq, Eq, Structural)]
pub enum Port {
    Up,
    Down,
    Left,
    Right,
    Any,
    Last,
}

impl Port {
    /// True of the four physical directions.
    pub open spec fn is_cardinal(self) -> bool {
        !(self is Any || self is Last)
    }

    /// The port named by an upper-case token.
    pub open spec fn named(w: Seq<char>) -> Option<Port> {
        if w == "UP"@ {
            Some(Port::Up)
        } else if w == "DOWN"@ {
            Some(Port::Down)
        } else if w == "LEFT"@ {
            Some(Port::Left)
        } else if w == "RIGHT"@ {
            Some(Port::Right)
        } else if w == "ANY"@ {
            Some(Port::Any)
        } else if w == "LAST"@ {
            Some(Port::Last)
        } else {
            None
        }
    }

    /// Reads a port name: `UP`, `DOWN`, `LEFT`, `RIGHT`, `ANY` or `LAST`.
    pub fn from_str(s: &str) -> (r: Result<Port, ParseError>)
        ensures
            r == match Port::named(s@) {
                Some(p) => Ok(p),
                None => Err(ParseError::BadPort),
            },
    {
        if str_is(s, "UP") {
            Ok(Port::Up)
        } else if str_is(s, "DOWN") {
            Ok(Port::Down)
        } else if str_is(s, "LEFT") {
            Ok(Port::Left)
        } else if str_is(s, "RIGHT") {
            Ok(Port::Right)
        } else if str_is(s, "ANY") {
            Ok(Port::Any)
        } else if str_is(s, "LAST") {
            Ok(Port::Last)
        } else {
            Err(ParseError::BadPort)
        }
    }
}

/// Why a program text was rejected.
#[derive(Clone, Copy, Debug, PartialEq, Eq, Structural)]
pub enum ParseError {
    /// The opcode is unknown, or takes another number of operands.
    BadOpcode,
    /// The instruction has no opcode or more than two operands.
    NumArgs,
    /// An operand is neither `ACC`, a port nor a decimal `i32`.
    InvalidOperand,
    /// A token is not a port name.
    BadPort,
    /// `MOV` names a literal as its destination.
    LiteralDestination,
    /// A jump names a label that binds to no instruction.
    UndefinedLabel,
    /// One label is bound to two different instructions.
    DuplicateLabel,
}

impl ParseError {
    /// The text that `message` gives for each kind of error.
    pub open spec fn message_of(self) -> Seq<char> {
        match self {
            ParseError::BadOpcode => "Bad opcode for # of arguments"@,
            ParseError::NumArgs => "Wrong number of arguments"@,
            ParseError::InvalidOperand => "Invalid operand"@,
            ParseError::BadPort => "bad port"@,
            ParseError::LiteralDestination => "Literal not allowed as dst operand"@,
            ParseError::UndefinedLabel => "Jump to undefined label"@,
            ParseError::DuplicateLabel => "Label bound to two instructions"@,
        }
    }

    /// A short human-readable description.
    pub fn message(&self) -> (r: &'static str)
        ensures
            r@ == self.message_of(),
    {
        match self {
            ParseError::BadOpcode => "Bad opcode for # of arguments",
            ParseError::NumArgs => "Wrong number of arguments",
            ParseError::InvalidOperand => "Invalid operand",
            ParseError::BadPort => "bad port",
            ParseError::LiteralDestination => "Literal not allowed as dst operand",
            ParseError::UndefinedLabel => "Jump to undefined label",
            ParseError::DuplicateLabel => "Label bound to two instructions",
        }
    }
}

/// An instruction operand.
#[derive(Clone, Copy, Debug, PartialEq, Eq, Structural)]
pub enum Operand {
    Lit(i32),
    Port(Port),
    ACC,
}

impl Operand {
    /// Reads an operand: `ACC`, a signed decimal `i32`, or a port name.
    pub fn from_str(s: &str) -> (r: Result<Operand, ParseError>)
        ensures
            r == operand_of(s@),
    {
        if str_is(s, "ACC") {
            return Ok(Operand::ACC);
        }
        match parse_decimal(s) {
            Some(n) => Ok(Operand::Lit(n)),
            None => match Port::from_str(s) {
                Ok(p) => Ok(Operand::Port(p)),
                Err(_) => Err(ParseError::InvalidOperand),
            },
        }
    }
}

/// The operand that an upper-case token names.
pub open spec fn operand_of(w: Seq<char>) -> Result<Operand, ParseError> {
    if w == "ACC"@ {
        Ok(Operand::ACC)
    } else {
        match decimal_of(w) {
            Some(n) => Ok(Operand::Lit(n)),
            None => match Port::named(w) {
                Some(p) => Ok(Operand::Port(p)),
                None => Err(ParseError::InvalidOperand),
            },
        }
    }
}

/// The condition under which a jump is taken, tested on `acc`.
#[derive(Clone, Copy, Debug, PartialEq, Eq, Structural)]
pub enum Condition {
    Unconditional,
    Ez,
    Nz,
    Gz,
    Lz,
}

impl Condition {
    pub open spec fn holds(self, acc: i32) -> bool {
        match self {
            Condition::Unconditional => true,
            Condition::Ez => acc == 0,
            Condition::Nz => acc != 0,
            Condition::Gz => acc > 0,
            Condition::Lz => acc < 0,
        }
    }

    /// Tests the condition on the accumulator.
    pub fn test(&self, acc: i32) -> (r: bool)
        ensures
            r == self.holds(acc),
    {
        match self {
            Condition::Unconditional => true,
            Condition::Ez => acc == 0,
            Condition::Nz => acc != 0,
            Condition::Gz => acc > 0,
            Condition::Lz => acc < 0,
        }
    }
}

/// A jump target: an upper-case identifier.
pub type Label = String;

/// One decoded instruction.
#[allow(inconsistent_fields)]
#[derive(Debug, PartialEq)]
pub enum Instruction {
    NOP,
    MOV { src: Operand, dst: Operand },
    SWP,
    SAV,
    ADD { addend: Operand },
    SUB { subtrahend: Operand },
    NEG,
    J { cond: Condition, dst: Label },
    JRO { dst: Operand },
}

/// An instruction as a mathematical value: the jump target is a sequence of
/// characters.
pub enum InsnView {
    Nop,
    Mov(Operand, Operand),
    Swp,
    Sav,
    Add(Operand),
    Sub(Operand),
    Neg,
    J(Condition, Seq<char>),
    Jro(Operand),
}

impl View for Instruction {
    type V = InsnView;

    open spec fn view(&self) -> InsnView {
        match self {
            Instruction::NOP => InsnView::Nop,
            Instruction::MOV { src, dst } => InsnView::Mov(*src, *dst),
            Instruction::SWP => InsnView::Swp,
            Instruction::SAV => InsnView::Sav,
            Instruction::ADD { addend } => InsnView::Add(*addend),
            Instruction::SUB { subtrahend } => InsnView::Sub(*subtrahend),
            Instruction::NEG => InsnView::Neg,
            Instruction::J { cond, dst } => InsnView::J(*cond, dst@),
            Instruction::JRO { dst } => InsnView::Jro(*dst),
        }
    }
}

impl InsnView {
    /// True of the instructions that name a port in an operand.
    pub open spec fn uses_port(self) -> bool {
        match self {
            InsnView::Mov(s, d) => s is Port || d is Port,
            InsnView::Add(o) => o is Port,
            InsnView::Sub(o) => o is Port,
            InsnView::Jro(o) => o is Port,
            _ => false,
        }
    }

    /// True unless a `MOV` stores to a literal.
    pub open spec fn well_formed(self) -> bool {
        !(self matches InsnView::Mov(_, d) && d is Lit)
    }
}

/// Relates a decoded result to its mathematical value.
pub open spec fn insn_result_view(r: Result<Instruction, ParseError>) -> Result<InsnView, ParseError> {
    match r {
        Ok(i) => Ok(i@),
        Err(e) => Err(e),
    }
}

/// The instruction spelled by the whitespace-separated words of an upper-case
/// line: the opcode first, then its operands.
pub open spec fn decode(ws: Seq<Seq<char>>) -> Result<InsnView, ParseError> {
    if ws.len() == 1 {
        let op = ws[0];
        if op == "NOP"@ {
            Ok(InsnView::Nop)
        } else if op == "SWP"@ {
            Ok(InsnView::Swp)
        } else if op == "SAV"@ {
            Ok(InsnView::Sav)
        } else if op == "NEG"@ {
            Ok(InsnView::Neg)
        } else {
            Err(ParseError::BadOpcode)
        }
    } else if ws.len() == 2 {
        let op = ws[0];
        let a = ws[1];
        if op == "ADD"@ {
            match operand_of(a) {
                Ok(o) => Ok(InsnView::Add(o)),
                Err(e) => Err(e),
            }
        } else if op == "SUB"@ {
            match operand_of(a) {
                Ok(o) => Ok(InsnView::Sub(o)),
                Err(e) => Err(e),
            }
        } else if op == "JMP"@ {
            Ok(InsnView::J(Condition::Unconditional, a))
        } else if op == "JEZ"@ {
            Ok(InsnView::J(Condition::Ez, a))
        } else if op == "JNZ"@ {
            Ok(InsnView::J(Condition::Nz, a))
        } else if op == "JGZ"@ {
            Ok(InsnView::J(Condition::Gz, a))
        } else if op == "JLZ"@ {
            Ok(InsnView::J(Condition::Lz, a))
        } else if op == "JRO"@ {
            match operand_of(a) {
                Ok(o) => Ok(InsnView::Jro(o)),
                Err(e) => Err(e),
            }
        } else {
            Err(ParseError::BadOpcode)
        }
    } else if ws.len() == 3 {
        if ws[0] == "MOV"@ {
            match operand_of(ws[1]) {
                Err(e) => Err(e),
                Ok(s) => match operand_of(ws[2]) {
                    Err(e) => Err(e),
                    Ok(Operand::Lit(_)) => Err(ParseError::LiteralDestination),
                    Ok(d) => Ok(InsnView::Mov(s, d)),
                },
            }
        } else {
            Err(ParseError::BadOpcode)
        }
    } else {
        Err(ParseError::NumArgs)
    }
}

impl Instruction {
    /// Decodes an upper-case instruction: an opcode and its operands,
    /// separated by white space.
    pub fn from_str(insn: &str) -> (r: Result<Instruction, ParseError>)
        ensures
            insn_result_view(r) == insn_of(insn@),
            r matches Ok(i) ==> i@.well_formed(),
    {
        let words = split_words(insn);
        let ghost ws = words_of(insn@);
        let n = words.len();
        if n == 1 {
            let op = words[0];
            if str_is(op, "NOP") {
                Ok(Instruction::NOP)
            } else if str_is(op, "SWP") {
                Ok(Instruction::SWP)
            } else if str_is(op, "SAV") {
                Ok(Instruction::SAV)
            } else if str_is(op, "NEG") {
                Ok(Instruction::NEG)
            } else {
                Err(ParseError::BadOpcode)
            }
        } else if n == 2 {
            let op = words[0];
            let a = words[1];
            assert(op@ == ws[0] && a@ == ws[1]);
            if str_is(op, "ADD") {
                match Operand::from_str(a) {
                    Ok(o) => Ok(Instruction::ADD { addend: o }),
                    Err(e) => Err(e),
                }
            } else if str_is(op, "SUB") {
                match Operand::from_str(a) {
                    Ok(o) => Ok(Instruction::SUB { subtrahend: o }),
                    Err(e) => Err(e),
                }
            } else if str_is(op, "JMP") {
                Ok(Instruction::J { cond: Condition::Unconditional, dst: a.to_owned() })
            } else if str_is(op, "JEZ") {
                Ok(Instruction::J { cond: Condition::Ez, dst: a.to_owned() })
            } else if str_is(op, "JNZ") {
                Ok(Instruction::J { cond: Condition::Nz, dst: a.to_owned() })
            } else if str_is(op, "JGZ") {
                Ok(Instruction::J { cond: Condition::Gz, dst: a.to_owned() })
            } else if str_is(op, "JLZ") {
                Ok(Instruction::J { cond: Condition::Lz, dst: a.to_owned() })
            } else if str_is(op, "JRO") {
                match Operand::from_str(a) {
                    Ok(o) => Ok(Instruction::JRO { dst: o }),
                    Err(e) => Err(e),
                }
            } else {
                Err(ParseError::BadOpcode)
            }
        } else if n == 3 {
            assert(words[0]@ == ws[0] && words[1]@ == ws[1] && words[2]@ == ws[2]);
            if str_is(words[0], "MOV") {
                match Operand::from_str(words[1]) {
                    Err(e) => Err(e),
                    Ok(src) => match Operand::from_str(words[2]) {
                        Err(e) => Err(e),
                        Ok(Operand::Lit(_)) => Err(ParseError::LiteralDestination),
                        Ok(dst) => Ok(Instruction::MOV { src, dst }),
                    },
                }
            } else {
                Err(ParseError::BadOpcode)
            }
        } else {
            Err(ParseError::NumArgs)
        }
    }
}

/// The characters with the Unicode `White_Space` property.
pub open spec fn is_space(c: char) -> bool {
    ||| '\t' <= c && c <= '\r'
    ||| c == ' '
    ||| c == '\u{85}'
    ||| c == '\u{a0}'
    ||| c == '\u{1680}'
    ||| '\u{2000}' <= c && c <= '\u{200a}'
    ||| c == '\u{2028}'
    ||| c == '\u{2029}'
    ||| c == '\u{202f}'
    ||| c == '\u{205f}'
    ||| c == '\u{3000}'
}

pub(crate) fn space(c: char) -> (r: bool)
    ensures
        r == is_space(c),
{
    ('\t' <= c && c <= '\r') || c == ' ' || c == '\u{85}' || c == '\u{a0}' || c == '\u{1680}'
        || ('\u{2000}' <= c && c <= '\u{200a}') || c == '\u{2028}' || c == '\u{2029}'
        || c == '\u{202f}' || c == '\u{205f}' || c == '\u{3000}'
}

/// The pieces of `s` between white space, empty pieces left out.
pub open spec fn words_of(s: Seq<char>) -> Seq<Seq<char>>
    decreases s.len(),
{
    if s.len() == 0 {
        seq![]
    } else {
        let prev = words_of(s.drop_last());
        let c = s.last();
        if is_space(c) {
            prev
        } else if s.len() >= 2 && !is_space(s[s.len() - 2]) {
            prev.update(prev.len() - 1, prev.last().push(c))
        } else {
            prev.push(seq![c])
        }
    }
}

/// What `Instruction::from_str` makes of a line's instruction part.
pub open spec fn insn_of(s: Seq<char>) -> Result<InsnView, ParseError> {
    decode(words_of(s))
}

/// Splits `s` at white space, leaving out empty pieces.
pub fn split_words<'a>(s: &'a str) -> (r: Vec<&'a str>)
    ensures
        r@.len() == words_of(s@).len(),
        forall|k: int| 0 <= k < r@.len() ==> (#[trigger] r@[k])@ == words_of(s@)[k],
{
    let n = s.unicode_len();
    let mut words: Vec<&'a str> = Vec::new();
    let mut i: usize = 0;
    let mut start: usize = 0;
    let mut in_word = false;
    while i < n
        invariant
            n == s@.len(),
            i <= n,
            start <= i,
            in_word ==> start < i && forall|j: int| start <= j < i ==> !is_space(s@[j]),
            in_word ==> !is_space(s@[i - 1]),
            !in_word ==> (i == 0 || is_space(s@[i - 1])),
            ({
                let w = words_of(s@.subrange(0, i as int));
                if in_word {
                    &&& w.len() == words@.len() + 1
                    &&& w.last() == s@.subrange(start as int, i as int)
                    &&& forall|k: int| 0 <= k < words@.len() ==> (#[trigger] words@[k])@ == w[k]
                } else {
                    &&& w.len() == words@.len()
                    &&& forall|k: int| 0 <= k < words@.len() ==> (#[trigger] words@[k])@ == w[k]
                }
            }),
        decreases n - i,
    {
        let c = s.get_char(i);
        let ghost before = words_of(s@.subrange(0, i as int));
        assert(s@.subrange(0, i + 1).drop_last() =~= s@.subrange(0, i as int));
        if space(c) {
            if in_word {
                words.push(s.substring_char(start, i));
                in_word = false;
            }
        } else if !in_word {
            start = i;
            in_word = true;
            assert(s@.subrange(start as int, i + 1) =~= seq![c]);
        } else {
            assert(s@.subrange(start as int, i + 1) =~= s@.subrange(start as int, i as int).push(c));
        }
        i = i + 1;
    }
    if in_word {
        words.push(s.substring_char(start, n));
    }
    assert(s@.subrange(0, n as int) =~= s@);
    words
}

/// Compares two strings character by character.
pub(crate) fn str_is(s: &str, t: &str) -> (r: bool)
    ensures
        r == (s@ == t@),
{
    let n = s.unicode_len();
    if n != t.unicode_len() {
        return false;
    }
    let mut i: usize = 0;
    while i < n
        invariant
            n == s@.len(),
            n == t@.len(),
            i <= n,
            s@.subrange(0, i as int) == t@.subrange(0, i as int),
        decreases n - i,
    {
        if s.get_char(i) != t.get_char(i) {
            return false;
        }
        assert(s@.subrange(0, i + 1) =~= s@.subrange(0, i as int).push(s@[i as int]));
        assert(t@.subrange(0, i + 1) =~= t@.subrange(0, i as int).push(t@[i as int]));
        i = i + 1;
    }
    assert(s@ =~= s@.subrange(0, n as int));
    assert(t@ =~= t@.subrange(0, n as int));
    true
}


/// The value of an ASCII decimal digit.
pub open spec fn digit_value(c: char) -> int {
    (c as u32) as int - ('0' as u32) as int
}

pub open spec fn is_digit(c: char) -> bool {
    '0' <= c && c <= '9'
}

/// The number that a string of decimal digits spells.
pub open spec fn digits_value(d: Seq<char>) -> int
    decreases d.len(),
{
    if d.len() == 0 {
        0
    } else {
        digits_value(d.drop_last()) * 10 + digit_value(d.last())
    }
}

/// How many leading characters of a number are its sign.
pub open spec fn sign_len(w: Seq<char>) -> int {
    if w.len() > 0 && (w[0] == '-' || w[0] == '+') {
        1
    } else {
        0
    }
}

pub open spec fn all_digits(d: Seq<char>) -> bool {
    forall|i: int| 0 <= i < d.len() ==> is_digit(#[trigger] d[i])
}

/// What `i32::from_str` accepts: an optional `+` or `-`, then at least one
/// ASCII digit, naming a value in the range of `i32`.
pub open spec fn decimal_of(w: Seq<char>) -> Option<i32> {
    let d = w.subrange(sign_len(w), w.len() as int);
    let v = if w.len() > 0 && w[0] == '-' {
        -digits_value(d)
    } else {
        digits_value(d)
    };
    if d.len() > 0 && all_digits(d) && i32::MIN <= v <= i32::MAX {
        Some(v as i32)
    } else {
        None
    }
}

proof fn lemma_digits_nonneg(d: Seq<char>)
    requires
        forall|i: int| 0 <= i < d.len() ==> is_digit(#[trigger] d[i]),
    ensures
        digits_value(d) >= 0,
    decreases d.len(),
{
    if d.len() > 0 {
        lemma_digits_nonneg(d.drop_last());
        assert(is_digit(d[d.len() - 1]));
    }
}

/// A longer string of digits never spells a smaller number.
proof fn lemma_digits_grow(d: Seq<char>, k: int)
    requires
        0 <= k <= d.len(),
        forall|i: int| 0 <= i < d.len() ==> is_digit(#[trigger] d[i]),
    ensures
        digits_value(d) >= digits_value(d.subrange(0, k)),
    decreases d.len() - k,
{
    if k < d.len() {
        lemma_digits_grow(d.drop_last(), k);
        assert(d.drop_last().subrange(0, k) =~= d.subrange(0, k));
        lemma_digits_nonneg(d.drop_last());
        assert(is_digit(d[d.len() - 1]));
    } else {
        assert(d.subrange(0, k) =~= d);
    }
}

/// Reads a signed decimal `i32` the way `i32::from_str` does.
pub fn parse_decimal(s: &str) -> (r: Option<i32>)
    ensures
        r == decimal_of(s@),
{
    let n = s.unicode_len();
    let ghost w = s@;
    let mut start: usize = 0;
    let mut neg = false;
    if n > 0 {
        let c = s.get_char(0);
        if c == '-' {
            neg = true;
            start = 1;
        } else if c == '+' {
            start = 1;
        }
    }
    let ghost d = w.subrange(start as int, n as int);
    if start >= n {
        return None;
    }
    let limit: i64 = if neg { 2147483648 } else { 2147483647 };
    let mut acc: i64 = 0;
    let mut i: usize = start;
    while i < n
        invariant
            n == w.len(),
            w == s@,
            start <= i <= n,
            neg == (w.len() > 0 && w[0] == '-'),
            start == sign_len(w),
            d == w.subrange(start as int, n as int),
            limit == (if neg { 2147483648i64 } else { 2147483647i64 }),
            forall|j: int| 0 <= j < i - start ==> is_digit(#[trigger] d[j]),
            acc == digits_value(d.subrange(0, i - start)),
            0 <= acc <= limit,
        decreases n - i,
    {
        let c = s.get_char(i);
        if !('0' <= c && c <= '9') {
            assert(!is_digit(d[i - start]));
            assert(!all_digits(d));
            return None;
        }
        let v = (c as u32 - '0' as u32) as i64;
        assert(d.subrange(0, i - start + 1).drop_last() =~= d.subrange(0, i - start));
        if acc > (limit - v) / 10 {
            assert(digits_value(d.subrange(0, i - start + 1)) > limit);
            proof {
                if all_digits(d) {
                    lemma_digits_grow(d, i - start + 1);
                    assert(digits_value(d) > limit);
                    if neg {
                        assert(-digits_value(d) < i32::MIN);
                    } else {
                        assert(digits_value(d) > i32::MAX);
                    }
                }
            }
            return None;
        }
        acc = acc * 10 + v;
        i = i + 1;
    }
    assert(d.subrange(0, n - start) =~= d);
    if neg {
        Some((0 - acc) as i32)
    } else {
        Some(acc as i32)
    }
}

} // verus!
