//! Registers, jump targets and the primitive instructions, with the text
//! grammar of each.

use vstd::prelude::*;
use vstd::string::*;

use crate::error::{ParseError, ParseErrorView};
use crate::text::{
    all_in, CharClass, decimal_digits, has_at, is_digit, is_space, lemma_decimal_round_trip,
    lemma_run_end_unique, parse_decimal, push_decimal, push_str, read_decimal, run_end, same_text,
    scan_run, slice, starts_at, to_chars, to_string,
};

verus! {

// =================================================================================================
// Variables
// =================================================================================================

/// A register: the accumulator `y`, an input register `x<n>` or a temporary
/// register `z<n>`, with `n` counted from 1.
#[derive(Clone, Copy, Debug, PartialEq, Eq, Structural)]
pub enum Variable {
    X(usize),
    Y,
    Z(usize),
}

impl Variable {
    /// Register indices start at 1.
    pub open spec fn well_formed(self) -> bool {
        match self {
            Variable::X(n) => n >= 1,
            Variable::Y => true,
            Variable::Z(n) => n >= 1,
        }
    }

    /// The register index that `s` writes: a decimal number of at least 1.
    pub open spec fn spec_index(s: Seq<char>) -> Option<usize> {
        match parse_decimal(s) {
            Some(n) => if n >= 1 {
                Some(n)
            } else {
                None
            },
            None => None,
        }
    }

    /// The variable that the token `s` names. The first character decides the
    /// kind; after `x` or `z` the rest must be an index, after `y` the rest is
    /// not looked at.
    pub open spec fn spec_parse(s: Seq<char>) -> Option<Variable> {
        if s.len() == 0 {
            None
        } else if s[0] == 'x' {
            match Self::spec_index(s.skip(1)) {
                Some(n) => Some(Variable::X(n)),
                None => None,
            }
        } else if s[0] == 'y' {
            Some(Variable::Y)
        } else if s[0] == 'z' {
            match Self::spec_index(s.skip(1)) {
                Some(n) => Some(Variable::Z(n)),
                None => None,
            }
        } else {
            None
        }
    }

    /// What `parse` returns for the token `s` met on line `line_num`.
    pub open spec fn parse_result(
        s: Seq<char>,
        line_num: usize,
        r: Result<Variable, ParseError>,
    ) -> bool {
        match Self::spec_parse(s) {
            Some(v) => r == Ok::<Variable, ParseError>(v),
            None => r is Err && r->Err_0@ == (ParseErrorView {
                message: "Invalid variable name"@,
                line_number: line_num,
            }),
        }
    }

    /// Reads a variable token.
    pub fn parse(var: &str, line_num: usize) -> (r: Result<Self, ParseError>)
        ensures
            Self::parse_result(var@, line_num, r),
            r matches Ok(v) ==> v.well_formed(),
    {
        let chars = to_chars(var);
        Self::parse_chars(&chars, line_num)
    }

    /// Reads a variable token given as characters.
    pub fn parse_chars(s: &Vec<char>, line_num: usize) -> (r: Result<Self, ParseError>)
        ensures
            Self::parse_result(s@, line_num, r),
            r matches Ok(v) ==> v.well_formed(),
    {
        if s.len() == 0 {
            return Err(ParseError::new("Invalid variable name", line_num));
        }
        let c = s[0];
        if c == 'y' {
            return Ok(Variable::Y);
        }
        if c != 'x' && c != 'z' {
            return Err(ParseError::new("Invalid variable name", line_num));
        }
        assert(s@.subrange(1, s.len() as int) =~= s@.skip(1));
        match read_decimal(s, 1, s.len()) {
            Some(n) => {
                if n == 0 {
                    Err(ParseError::new("Invalid variable name", line_num))
                } else if c == 'x' {
                    Ok(Variable::X(n))
                } else {
                    Ok(Variable::Z(n))
                }
            },
            None => Err(ParseError::new("Invalid variable name", line_num)),
        }
    }

    /// How the variable is written.
    pub open spec fn text(self) -> Seq<char> {
        match self {
            Variable::X(n) => seq!['x'] + decimal_digits(n as nat),
            Variable::Y => seq!['y'],
            Variable::Z(n) => seq!['z'] + decimal_digits(n as nat),
        }
    }

    /// Appends the variable's text to `out`.
    pub fn push_text(&self, out: &mut Vec<char>)
        ensures
            final(out)@ == old(out)@ + self.text(),
    {
        match self {
            Variable::X(n) => {
                out.push('x');
                push_decimal(out, *n);
                assert(out@ =~= old(out)@ + self.text());
            },
            Variable::Y => {
                out.push('y');
                assert(out@ =~= old(out)@ + self.text());
            },
            Variable::Z(n) => {
                out.push('z');
                push_decimal(out, *n);
                assert(out@ =~= old(out)@ + self.text());
            },
        }
    }

    /// The variable as text.
    pub fn to_text(&self) -> (s: String)
        ensures
            s@ == self.text(),
    {
        let mut out: Vec<char> = Vec::new();
        self.push_text(&mut out);
        assert(out@ =~= self.text());
        to_string(&out)
    }
}

// =================================================================================================
// Labels
// =================================================================================================

/// A jump target: one of the five groups `A` to `E` and a number, held as the
/// single key `number * 5 + group`.
#[derive(Copy, Clone, Debug, Eq, PartialEq, Hash, Structural)]
pub struct Label(usize);

impl Label {
    /// The key `number * 5 + group`.
    pub closed spec fn spec_key(self) -> usize {
        self.0
    }

    /// The label with the given key.
    pub closed spec fn with_key(key: usize) -> Label {
        Label(key)
    }

    /// The label with a key has that key.
    pub broadcast proof fn lemma_with_key(key: usize)
        ensures
            (#[trigger] Label::with_key(key)).key() == key,
    {
    }

    /// A label is its key.
    pub broadcast proof fn lemma_key_determines(l: Label)
        ensures
            Label::with_key(#[trigger] l.key()) == l,
    {
    }

    /// The group, from 0 for `A` to 4 for `E`.
    pub open spec fn group(self) -> int {
        self.key() as int % 5
    }

    /// The number within the group.
    pub open spec fn number(self) -> int {
        self.key() as int / 5
    }

    /// Whether a group and a number make a label that fits the machine word.
    pub open spec fn fits(group: int, number: int) -> bool {
        0 <= group < 5 && 0 <= number && number * 5 + group <= usize::MAX
    }

    /// The label of the given group and number.
    pub open spec fn spec_new(group: int, number: int) -> Label {
        Label::with_key((number * 5 + group) as usize)
    }

    /// The label of the given group and number.
    pub fn new(group: usize, number: usize) -> (l: Self)
        requires
            Self::fits(group as int, number as int),
        ensures
            l == Self::spec_new(group as int, number as int),
            l.group() == group,
            l.number() == number,
    {
        Label(number * 5 + group)
    }

    /// The key of the label.
    #[verifier::when_used_as_spec(spec_key)]
    pub fn key(self) -> (k: usize)
        ensures
            k == self.spec_key(),
    {
        self.0
    }

    /// The label with the given key.
    pub fn from_key(key: usize) -> (l: Self)
        ensures
            l == Self::with_key(key),
    {
        Label(key)
    }

    /// The label that the token `s` names: a letter from `A` to `E`, then a
    /// decimal number.
    pub open spec fn spec_parse(s: Seq<char>) -> Option<Label> {
        if s.len() > 0 && 'A' <= s[0] && s[0] <= 'E' {
            let group = s[0] as int - 'A' as int;
            match parse_decimal(s.skip(1)) {
                Some(n) => if Self::fits(group, n as int) {
                    Some(Self::spec_new(group, n as int))
                } else {
                    None
                },
                None => None,
            }
        } else {
            None
        }
    }

    /// What `parse` returns for the token `s` met on line `line_num`.
    pub open spec fn parse_result(
        s: Seq<char>,
        line_num: usize,
        r: Result<Label, ParseError>,
    ) -> bool {
        match Self::spec_parse(s) {
            Some(l) => r == Ok::<Label, ParseError>(l),
            None => r is Err && r->Err_0@ == (ParseErrorView {
                message: "Invalid label name"@,
                line_number: line_num,
            }),
        }
    }

    /// Reads a label token.
    pub fn parse(label: &str, line_num: usize) -> (r: Result<Self, ParseError>)
        ensures
            Self::parse_result(label@, line_num, r),
    {
        let chars = to_chars(label);
        Self::parse_chars(&chars, line_num)
    }

    /// Reads a label token given as characters.
    pub fn parse_chars(s: &Vec<char>, line_num: usize) -> (r: Result<Self, ParseError>)
        ensures
            Self::parse_result(s@, line_num, r),
    {
        if s.len() == 0 {
            return Err(ParseError::new("Invalid label name", line_num));
        }
        let c = s[0];
        if c < 'A' || c > 'E' {
            return Err(ParseError::new("Invalid label name", line_num));
        }
        let group: usize = (c as u32 - 0x41) as usize;
        assert(s@.subrange(1, s.len() as int) =~= s@.skip(1));
        match read_decimal(s, 1, s.len()) {
            Some(n) => {
                if n > (usize::MAX - group) / 5 {
                    Err(ParseError::new("Invalid label name", line_num))
                } else {
                    Ok(Label::new(group, n))
                }
            },
            None => Err(ParseError::new("Invalid label name", line_num)),
        }
    }

    /// The letter of a group.
    pub open spec fn group_letter(group: int) -> char {
        ('A' as int + group) as char
    }

    /// How the label is written.
    pub open spec fn text(self) -> Seq<char> {
        seq![Self::group_letter(self.group())] + decimal_digits(self.number() as nat)
    }

    /// Appends the label's text to `out`.
    pub fn push_text(&self, out: &mut Vec<char>)
        ensures
            final(out)@ == old(out)@ + self.text(),
    {
        let group: u8 = (self.0 % 5) as u8;
        out.push((0x41u8 + group) as char);
        push_decimal(out, self.0 / 5);
        assert(out@ =~= old(out)@ + self.text());
    }

    /// The label as text.
    pub fn to_text(&self) -> (s: String)
        ensures
            s@ == self.text(),
    {
        let mut out: Vec<char> = Vec::new();
        self.push_text(&mut out);
        assert(out@ =~= self.text());
        to_string(&out)
    }
}

/// The group and the number of the label token that begins at index `at` of
/// `s` and ends at `end`: a letter from `A` to `E`, then a decimal number.
/// `None` where the number does not fit the machine word.
pub open spec fn label_capture(s: Seq<char>, at: int, end: int) -> Option<(usize, usize)> {
    match parse_decimal(s.subrange(at + 1, end)) {
        Some(n) => Some(((s[at] as int - 'A' as int) as usize, n)),
        None => None,
    }
}

/// Reads the group and the number of a label token.
pub fn parse_label_capture(s: &Vec<char>, at: usize, end: usize) -> (r: Option<(usize, usize)>)
    requires
        at < end <= s.len(),
        'A' <= s[at as int] && s[at as int] <= 'E',
    ensures
        r == label_capture(s@, at as int, end as int),
        r matches Some(c) ==> c.0 < 5,
{
    match read_decimal(s, at + 1, end) {
        Some(n) => Some(((s[at] as u32 - 0x41) as usize, n)),
        None => None,
    }
}

// =================================================================================================
// Instructions
// =================================================================================================

/// A primitive operation of the machine.
#[derive(Clone, Copy, Debug, PartialEq, Eq, Structural)]
pub enum Instruction {
    /// `v <- v + 1`: adds one to the register.
    Increment { var: Variable },
    /// `v <- v - 1`: takes one off the register, unless it holds 0.
    Decrement { var: Variable },
    /// `if v != 0 goto L`: goes on at the label where the register does not
    /// hold 0.
    JumpNonZero { var: Variable, to: Label },
    /// `nop`: does nothing.
    Nop,
    /// `print v`: hands the value of the register out.
    Print { var: Variable },
    /// `state`: hands the values of all registers out.
    State,
}

/// Where the variable token that begins at index `i` of `s` ends: after `y`,
/// or after `x` or `z` and the digits that follow, of which there is at least
/// one.
pub open spec fn variable_token_end(s: Seq<char>, i: int) -> Option<int> {
    if 0 <= i < s.len() && s[i] == 'y' {
        Some(i + 1)
    } else if 0 <= i < s.len() && (s[i] == 'x' || s[i] == 'z') && run_end(
        s,
        i + 1,
        CharClass::Digit,
    ) > i + 1 {
        Some(run_end(s, i + 1, CharClass::Digit))
    } else {
        None
    }
}

/// Finds the end of the variable token that begins at index `i`.
pub fn variable_token(s: &Vec<char>, i: usize) -> (r: Option<usize>)
    ensures
        match variable_token_end(s@, i as int) {
            Some(e) => r == Some(e as usize) && i < e <= s.len(),
            None => r is None,
        },
{
    if i >= s.len() {
        return None;
    }
    let c = s[i];
    if c == 'y' {
        Some(i + 1)
    } else if c == 'x' || c == 'z' {
        let e = scan_run(s, i + 1, CharClass::Digit);
        if e > i + 1 {
            Some(e)
        } else {
            None
        }
    } else {
        None
    }
}

/// An assignment `v <- v + 1` or `v <- v - 1`, as it is read.
pub struct Assignment {
    /// The end of the variable token, which begins the line.
    pub target_end: int,
    /// Whether the operator is `+`.
    pub plus: bool,
}

/// Reads `s` as an assignment: a variable token, `<-`, the same token again,
/// `+` or `-`, and `1`, with any white space, or none, on both sides of `<-`
/// and of the operator, and nothing else.
pub open spec fn spec_assignment(s: Seq<char>) -> Option<Assignment> {
    match variable_token_end(s, 0) {
        None => None,
        Some(e1) => {
            let a = run_end(s, e1, CharClass::Space);
            let b = run_end(s, a + "<-"@.len(), CharClass::Space);
            match variable_token_end(s, b) {
                None => None,
                Some(e2) => {
                    let c = run_end(s, e2, CharClass::Space);
                    let d = run_end(s, c + 1, CharClass::Space);
                    if has_at(s, a, "<-"@) && s.subrange(0, e1) == s.subrange(b, e2) && c < s.len()
                        && (s[c] == '+' || s[c] == '-') && d + 1 == s.len() && s[d] == '1' {
                        Some(Assignment { target_end: e1, plus: s[c] == '+' })
                    } else {
                        None
                    }
                },
            }
        },
    }
}

/// A conditional jump `if v != 0 goto L`, as it is read.
pub struct Jump {
    /// Where the variable token begins.
    pub var_start: int,
    /// Where the variable token ends.
    pub var_end: int,
    /// Where the label token begins; it runs to the end of the line.
    pub label_start: int,
}

/// Reads `s` as a conditional jump: `if`, a variable token, `!=`, `0`, `goto`
/// and a word that runs to the end of the line, with one space between them,
/// but any white space, or none, on both sides of `!=`.
pub open spec fn spec_jump(s: Seq<char>) -> Option<Jump> {
    let v = "if "@.len() as int;
    match variable_token_end(s, v) {
        None => None,
        Some(e) => {
            let a = run_end(s, e, CharClass::Space);
            let b = run_end(s, a + "!="@.len(), CharClass::Space);
            let l = b + "0 goto "@.len();
            if has_at(s, 0, "if "@) && has_at(s, a, "!="@) && has_at(s, b, "0 goto "@) && l
                < s.len() && run_end(s, l, CharClass::Word) == s.len() {
                Some(Jump { var_start: v, var_end: e, label_start: l })
            } else {
                None
            }
        },
    }
}

/// Reads `s` as `print v`: where the variable token begins.
pub open spec fn spec_print(s: Seq<char>) -> Option<int> {
    let v = "print "@.len() as int;
    if has_at(s, 0, "print "@) && variable_token_end(s, v) == Some(s.len() as int) {
        Some(v)
    } else {
        None
    }
}

impl Instruction {
    /// Every variable of the instruction has an index of at least 1.
    pub open spec fn well_formed(self) -> bool {
        match self {
            Instruction::Increment { var } => var.well_formed(),
            Instruction::Decrement { var } => var.well_formed(),
            Instruction::JumpNonZero { var, to } => var.well_formed(),
            Instruction::Nop => true,
            Instruction::Print { var } => var.well_formed(),
            Instruction::State => true,
        }
    }

    /// The instruction that the line `s` writes. `Ok(None)` says that the line
    /// has the form of no instruction; `Err` holds the message for a line that
    /// has the form of one but names a variable or a label that does not
    /// exist.
    pub open spec fn spec_parse(s: Seq<char>) -> Result<Option<Instruction>, Seq<char>> {
        if let Some(a) = spec_assignment(s) {
            match Variable::spec_parse(s.subrange(0, a.target_end)) {
                Some(var) => Ok(
                    Some(
                        if a.plus {
                            Instruction::Increment { var }
                        } else {
                            Instruction::Decrement { var }
                        },
                    ),
                ),
                None => Err("Invalid variable name"@),
            }
        } else if let Some(j) = spec_jump(s) {
            match Variable::spec_parse(s.subrange(j.var_start, j.var_end)) {
                Some(var) => match Label::spec_parse(s.subrange(j.label_start, s.len() as int)) {
                    Some(to) => Ok(Some(Instruction::JumpNonZero { var, to })),
                    None => Err("Invalid label name"@),
                },
                None => Err("Invalid variable name"@),
            }
        } else if s == "nop"@ {
            Ok(Some(Instruction::Nop))
        } else if let Some(v) = spec_print(s) {
            match Variable::spec_parse(s.subrange(v, s.len() as int)) {
                Some(var) => Ok(Some(Instruction::Print { var })),
                None => Err("Invalid variable name"@),
            }
        } else if s == "state"@ {
            Ok(Some(Instruction::State))
        } else {
            Ok(None)
        }
    }

    /// What `parse` returns for the line `s` with the number `line_num`.
    pub open spec fn parse_result(
        s: Seq<char>,
        line_num: usize,
        r: Result<Option<Instruction>, ParseError>,
    ) -> bool {
        match Self::spec_parse(s) {
            Ok(i) => r == Ok::<Option<Instruction>, ParseError>(i),
            Err(message) => r is Err && r->Err_0@ == (ParseErrorView {
                message,
                line_number: line_num,
            }),
        }
    }

    /// Reads a line as a primitive instruction.
    pub fn parse(instruction: &str, line_num: usize) -> (r: Result<Option<Self>, ParseError>)
        ensures
            Self::parse_result(instruction@, line_num, r),
            r matches Ok(Some(i)) ==> i.well_formed(),
    {
        let chars = to_chars(instruction);
        Self::parse_chars(&chars, line_num)
    }

    /// Reads a line, given as characters, as a primitive instruction.
    pub fn parse_chars(s: &Vec<char>, line_num: usize) -> (r: Result<Option<Self>, ParseError>)
        ensures
            Self::parse_result(s@, line_num, r),
            r matches Ok(Some(i)) ==> i.well_formed(),
    {
        if let Some((target_end, plus)) = read_assignment(s) {
            let token = slice(s, 0, target_end);
            let var = Variable::parse_chars(&token, line_num)?;
            if plus {
                return Ok(Some(Instruction::Increment { var }));
            } else {
                return Ok(Some(Instruction::Decrement { var }));
            }
        }
        if let Some((var_start, var_end, label_start)) = read_jump(s) {
            let token = slice(s, var_start, var_end);
            let var = Variable::parse_chars(&token, line_num)?;
            let target = slice(s, label_start, s.len());
            let to = Label::parse_chars(&target, line_num)?;
            return Ok(Some(Instruction::JumpNonZero { var, to }));
        }
        let nop = to_chars("nop");
        if same_text(s, &nop) {
            return Ok(Some(Instruction::Nop));
        }
        if let Some(v) = read_print(s) {
            let token = slice(s, v, s.len());
            let var = Variable::parse_chars(&token, line_num)?;
            return Ok(Some(Instruction::Print { var }));
        }
        let state = to_chars("state");
        if same_text(s, &state) {
            return Ok(Some(Instruction::State));
        }
        Ok(None)
    }

    /// How the instruction is written.
    pub open spec fn text(self) -> Seq<char> {
        match self {
            Instruction::Increment { var } => var.text() + " <- "@ + var.text() + " + 1"@,
            Instruction::Decrement { var } => var.text() + " <- "@ + var.text() + " - 1"@,
            Instruction::JumpNonZero { var, to } => "if "@ + var.text() + " != 0 goto "@
                + to.text(),
            Instruction::Nop => "nop"@,
            Instruction::Print { var } => "print "@ + var.text(),
            Instruction::State => "state"@,
        }
    }

    /// The instruction as text.
    pub fn to_text(&self) -> (s: String)
        ensures
            s@ == self.text(),
    {
        let mut out: Vec<char> = Vec::new();
        match self {
            Instruction::Increment { var } => {
                var.push_text(&mut out);
                push_str(&mut out, " <- ");
                var.push_text(&mut out);
                push_str(&mut out, " + 1");
            },
            Instruction::Decrement { var } => {
                var.push_text(&mut out);
                push_str(&mut out, " <- ");
                var.push_text(&mut out);
                push_str(&mut out, " - 1");
            },
            Instruction::JumpNonZero { var, to } => {
                push_str(&mut out, "if ");
                var.push_text(&mut out);
                push_str(&mut out, " != 0 goto ");
                to.push_text(&mut out);
            },
            Instruction::Nop => {
                push_str(&mut out, "nop");
            },
            Instruction::Print { var } => {
                push_str(&mut out, "print ");
                var.push_text(&mut out);
            },
            Instruction::State => {
                push_str(&mut out, "state");
            },
        }
        assert(out@ =~= self.text());
        to_string(&out)
    }
}

/// Reads a line as an assignment: the end of its variable token, and whether
/// it adds.
pub fn read_assignment(s: &Vec<char>) -> (r: Option<(usize, bool)>)
    ensures
        match spec_assignment(s@) {
            Some(a) => r == Some((a.target_end as usize, a.plus)) && 0 < a.target_end <= s.len(),
            None => r is None,
        },
{
    let e1 = match variable_token(s, 0) {
        Some(e) => e,
        None => {
            return None;
        },
    };
    let a = scan_run(s, e1, CharClass::Space);
    let arrow = to_chars("<-");
    if !starts_at(s, a, &arrow) {
        return None;
    }
    let b = scan_run(s, a + arrow.len(), CharClass::Space);
    let e2 = match variable_token(s, b) {
        Some(e) => e,
        None => {
            return None;
        },
    };
    let first = slice(s, 0, e1);
    let second = slice(s, b, e2);
    if !same_text(&first, &second) {
        return None;
    }
    let c = scan_run(s, e2, CharClass::Space);
    if c >= s.len() || (s[c] != '+' && s[c] != '-') {
        return None;
    }
    let d = scan_run(s, c + 1, CharClass::Space);
    if d < s.len() && d + 1 == s.len() && s[d] == '1' {
        Some((e1, s[c] == '+'))
    } else {
        None
    }
}

/// Reads a line as a conditional jump: where its variable token begins and
/// ends, and where its label token begins.
pub fn read_jump(s: &Vec<char>) -> (r: Option<(usize, usize, usize)>)
    ensures
        match spec_jump(s@) {
            Some(j) => r == Some((j.var_start as usize, j.var_end as usize, j.label_start as usize))
                && 0 <= j.var_start <= j.var_end <= j.label_start < s.len(),
            None => r is None,
        },
{
    let head = to_chars("if ");
    if !starts_at(s, 0, &head) {
        return None;
    }
    let e = match variable_token(s, head.len()) {
        Some(e) => e,
        None => {
            return None;
        },
    };
    let a = scan_run(s, e, CharClass::Space);
    let differs = to_chars("!=");
    if !starts_at(s, a, &differs) {
        return None;
    }
    let b = scan_run(s, a + differs.len(), CharClass::Space);
    let goto = to_chars("0 goto ");
    if !starts_at(s, b, &goto) {
        return None;
    }
    let l = b + goto.len();
    if l < s.len() && scan_run(s, l, CharClass::Word) == s.len() {
        Some((head.len(), e, l))
    } else {
        None
    }
}

/// Reads a line as `print v`: where the variable token begins.
pub fn read_print(s: &Vec<char>) -> (r: Option<usize>)
    ensures
        match spec_print(s@) {
            Some(v) => r == Some(v as usize) && 0 <= v < s.len(),
            None => r is None,
        },
{
    let head = to_chars("print ");
    if !starts_at(s, 0, &head) {
        return None;
    }
    match variable_token(s, head.len()) {
        Some(e) => if e == s.len() {
            Some(head.len())
        } else {
            None
        },
        None => None,
    }
}

// =================================================================================================
// What is written is read back
// =================================================================================================

/// A variable that is written is read back as the same variable.
pub proof fn lemma_variable_round_trip(v: Variable)
    requires
        v.well_formed(),
    ensures
        Variable::spec_parse(v.text()) == Some(v),
        v.text().len() >= 1,
        v.text()[0] == 'x' || v.text()[0] == 'y' || v.text()[0] == 'z',
        all_in(v.text().skip(1), CharClass::Digit),
        v is Y ==> v.text().len() == 1,
        !(v is Y) ==> v.text().len() >= 2,
{
    match v {
        Variable::X(n) => {
            lemma_decimal_round_trip(n as nat);
            assert(v.text().skip(1) =~= decimal_digits(n as nat));
        },
        Variable::Y => {
            assert(v.text().skip(1) =~= Seq::<char>::empty());
        },
        Variable::Z(n) => {
            lemma_decimal_round_trip(n as nat);
            assert(v.text().skip(1) =~= decimal_digits(n as nat));
        },
    }
}

/// Two variables that are written alike are the same variable.
pub proof fn lemma_variable_text_injective(v: Variable, w: Variable)
    requires
        v.well_formed(),
        w.well_formed(),
        v.text() == w.text(),
    ensures
        v == w,
{
    lemma_variable_round_trip(v);
    lemma_variable_round_trip(w);
}

/// A label that is written is read back as the same label.
pub proof fn lemma_label_round_trip(l: Label)
    ensures
        Label::spec_parse(l.text()) == Some(l),
        l.text().len() >= 2,
        all_in(l.text(), CharClass::Word),
{
    let group = l.group();
    let number = l.number();
    lemma_decimal_round_trip(number as nat);
    let t = l.text();
    assert(t.skip(1) =~= decimal_digits(number as nat));
    assert(t[0] == Label::group_letter(group));
    assert(t[0] as int - 'A' as int == group);
    assert(number * 5 + group == l.key());
    assert forall|i: int| 0 <= i < t.len() implies CharClass::Word.holds(#[trigger] t[i]) by {
        if i > 0 {
            assert(t[i] == t.skip(1)[i - 1]);
        }
    }
}

/// Where the text of a variable stands in a line and no digit follows it, it
/// is the variable token there.
pub proof fn lemma_variable_token(s: Seq<char>, i: int, v: Variable)
    requires
        v.well_formed(),
        0 <= i,
        i + v.text().len() <= s.len(),
        s.subrange(i, i + v.text().len()) == v.text(),
        i + v.text().len() == s.len() || !is_digit(s[i + v.text().len()]),
    ensures
        variable_token_end(s, i) == Some(i + v.text().len()),
{
    lemma_variable_round_trip(v);
    let t = v.text();
    let k = t.len() as int;
    assert(s[i] == s.subrange(i, i + k)[0]);
    if !(v is Y) {
        assert(s.subrange(i + 1, i + k) =~= t.skip(1));
        lemma_run_end_unique(s, i + 1, i + k, CharClass::Digit);
    }
}

/// Where exactly one white space character stands at index `i` of a line, the
/// run of white space there ends at `i + 1`.
pub proof fn lemma_one_space(s: Seq<char>, i: int)
    requires
        0 <= i < s.len(),
        s[i] == ' ',
        i + 1 == s.len() || !is_space(s[i + 1]),
    ensures
        run_end(s, i, CharClass::Space) == i + 1,
{
    assert(s.subrange(i, i + 1)[0] == s[i]);
    lemma_run_end_unique(s, i, i + 1, CharClass::Space);
}

/// The line `v <- w + 1` or `v <- w - 1`, as [`Instruction::text`] writes it.
pub open spec fn assignment_text(v: Variable, w: Variable, plus: bool) -> Seq<char> {
    v.text() + " <- "@ + w.text() + if plus {
        " + 1"@
    } else {
        " - 1"@
    }
}

/// How an assignment between two variables is read: as the increment or the
/// decrement of the variable where both are the same, and as no instruction
/// where they differ.
pub proof fn lemma_assignment(v: Variable, w: Variable, plus: bool)
    requires
        v.well_formed(),
        w.well_formed(),
    ensures
        v == w ==> Instruction::spec_parse(assignment_text(v, w, plus)) == Ok::<
            Option<Instruction>,
            Seq<char>,
        >(
            Some(
                if plus {
                    Instruction::Increment { var: v }
                } else {
                    Instruction::Decrement { var: v }
                },
            ),
        ),
        v != w ==> Instruction::spec_parse(assignment_text(v, w, plus)) == Ok::<
            Option<Instruction>,
            Seq<char>,
        >(None),
{
    reveal_strlit(" <- ");
    reveal_strlit(" + 1");
    reveal_strlit(" - 1");
    reveal_strlit("<-");
    reveal_strlit("if ");
    reveal_strlit("print ");
    reveal_strlit("nop");
    reveal_strlit("state");
    lemma_variable_round_trip(v);
    lemma_variable_round_trip(w);
    let s = assignment_text(v, w, plus);
    let k = v.text().len() as int;
    let j = w.text().len() as int;
    let tail = if plus {
        " + 1"@
    } else {
        " - 1"@
    };
    assert(s.len() == k + 4 + j + 4);
    assert(s.subrange(0, k) =~= v.text());
    assert(s[k] == ' ');
    assert(s[k + 1] == '<');
    assert(s[k + 2] == '-');
    assert(s[k + 3] == ' ');
    assert(s.subrange(k + 4, k + 4 + j) =~= w.text());
    assert(s[k + 4] == w.text()[0]);
    assert(s[k + 4 + j] == ' ');
    assert(s[k + 4 + j + 1] == tail[1]);
    assert(s[k + 4 + j + 2] == ' ');
    assert(s[k + 4 + j + 3] == '1');
    lemma_variable_token(s, 0, v);
    lemma_one_space(s, k);
    assert(s.subrange(k + 1, k + 3) =~= "<-"@);
    lemma_one_space(s, k + 3);
    lemma_variable_token(s, k + 4, w);
    lemma_one_space(s, k + 4 + j);
    lemma_one_space(s, k + 4 + j + 2);
    if v == w {
        assert(spec_assignment(s) == Some(Assignment { target_end: k, plus }));
    } else {
        if v.text() == w.text() {
            lemma_variable_text_injective(v, w);
        }
        assert(spec_assignment(s) is None);
        assert(s[0] == v.text()[0]);
        assert(spec_jump(s) is None) by {
            if has_at(s, 0, "if "@) {
                assert(s.subrange(0, 3)[0] == 'i');
            }
        }
        assert(s != "nop"@);
        assert(spec_print(s) is None) by {
            if has_at(s, 0, "print "@) {
                assert(s.subrange(0, 6)[0] == 'p');
            }
        }
        assert(s != "state"@);
    }
}

/// White space round the operators of an assignment does not matter: with
/// any white space, or none, on both sides of `<-` and of `+` or `-`, the
/// line is read as the increment or the decrement of its variable.
pub proof fn lemma_spaced_assignment(
    v: Variable,
    plus: bool,
    w1: Seq<char>,
    w2: Seq<char>,
    w3: Seq<char>,
    w4: Seq<char>,
)
    requires
        v.well_formed(),
        all_in(w1, CharClass::Space),
        all_in(w2, CharClass::Space),
        all_in(w3, CharClass::Space),
        all_in(w4, CharClass::Space),
    ensures
        Instruction::spec_parse(
            v.text() + w1 + "<-"@ + w2 + v.text() + w3 + seq![
                if plus {
                    '+'
                } else {
                    '-'
                },
            ] + w4 + seq!['1'],
        ) == Ok::<Option<Instruction>, Seq<char>>(
            Some(
                if plus {
                    Instruction::Increment { var: v }
                } else {
                    Instruction::Decrement { var: v }
                },
            ),
        ),
{
    reveal_strlit("<-");
    lemma_variable_round_trip(v);
    let op = if plus {
        '+'
    } else {
        '-'
    };
    let s = v.text() + w1 + "<-"@ + w2 + v.text() + w3 + seq![op] + w4 + seq!['1'];
    let k = v.text().len() as int;
    let a = k + w1.len();
    let b = a + 2 + w2.len();
    let c = b + k + w3.len();
    let d = c + 1 + w4.len();
    assert(s.len() == d + 1);
    assert(s.subrange(0, k) =~= v.text());
    assert(s.subrange(k, a) =~= w1);
    assert(s[a] == '<' && s[a + 1] == '-');
    assert(s.subrange(a, a + 2) =~= "<-"@);
    assert(s.subrange(a + 2, b) =~= w2);
    assert(s.subrange(b, b + k) =~= v.text());
    assert(s[b] == v.text()[0]);
    assert(s.subrange(b + k, c) =~= w3);
    assert(s[c] == op);
    assert(s.subrange(c + 1, d) =~= w4);
    assert(s[d] == '1');
    assert(!is_digit(s[k])) by {
        if w1.len() > 0 {
            assert(s[k] == w1[0]);
        }
    }
    assert(!is_digit(s[b + k])) by {
        if w3.len() > 0 {
            assert(s[b + k] == w3[0]);
        }
    }
    lemma_variable_token(s, 0, v);
    lemma_run_end_unique(s, k, a, CharClass::Space);
    lemma_run_end_unique(s, a + 2, b, CharClass::Space);
    lemma_variable_token(s, b, v);
    lemma_run_end_unique(s, b + k, c, CharClass::Space);
    lemma_run_end_unique(s, c + 1, d, CharClass::Space);
    assert(spec_assignment(s) == Some(Assignment { target_end: k, plus }));
}

/// For every `n` of at least 1, the line `x<n> <- x<n> + 1` is read as the
/// increment of `x<n>`.
pub proof fn lemma_increment_line(n: usize)
    requires
        n >= 1,
    ensures
        Instruction::spec_parse(
            seq!['x'] + decimal_digits(n as nat) + " <- "@ + (seq!['x'] + decimal_digits(n as nat))
                + " + 1"@,
        ) == Ok::<Option<Instruction>, Seq<char>>(
            Some(Instruction::Increment { var: Variable::X(n) }),
        ),
{
    lemma_assignment(Variable::X(n), Variable::X(n), true);
}

/// For `n` and `m` of at least 1 that differ, the line `x<n> <- x<m> - 1` is
/// no instruction: a decrement names the same variable on both sides.
pub proof fn lemma_decrement_line(n: usize, m: usize)
    requires
        n >= 1,
        m >= 1,
        n != m,
    ensures
        Instruction::spec_parse(
            seq!['x'] + decimal_digits(n as nat) + " <- "@ + (seq!['x'] + decimal_digits(m as nat))
                + " - 1"@,
        ) == Ok::<Option<Instruction>, Seq<char>>(None),
{
    lemma_assignment(Variable::X(n), Variable::X(m), false);
}

/// An instruction that is written is read back as the same instruction.
pub proof fn lemma_instruction_round_trip(i: Instruction)
    requires
        i.well_formed(),
    ensures
        Instruction::spec_parse(i.text()) == Ok::<Option<Instruction>, Seq<char>>(Some(i)),
{
    reveal_strlit("if ");
    reveal_strlit("print ");
    reveal_strlit("nop");
    reveal_strlit("state");
    let s = i.text();
    match i {
        Instruction::Increment { var } => {
            lemma_assignment(var, var, true);
        },
        Instruction::Decrement { var } => {
            lemma_assignment(var, var, false);
        },
        Instruction::JumpNonZero { var, to } => {
            reveal_strlit(" != 0 goto ");
            reveal_strlit("!=");
            reveal_strlit("0 goto ");
            lemma_variable_round_trip(var);
            lemma_label_round_trip(to);
            let k = var.text().len() as int;
            let j = to.text().len() as int;
            assert(s.len() == 3 + k + 11 + j);
            assert(s[0] == 'i');
            assert(variable_token_end(s, 0) is None);
            assert(s.subrange(0, 3) =~= "if "@);
            assert(s.subrange(3, 3 + k) =~= var.text());
            assert(s[3 + k] == ' ');
            assert(s[3 + k + 1] == '!');
            lemma_variable_token(s, 3, var);
            lemma_one_space(s, 3 + k);
            assert(s.subrange(3 + k + 1, 3 + k + 3) =~= "!="@);
            assert(s[3 + k + 3] == ' ');
            assert(s[3 + k + 4] == '0');
            lemma_one_space(s, 3 + k + 3);
            assert(s.subrange(3 + k + 4, 3 + k + 11) =~= "0 goto "@);
            assert(s.subrange(3 + k + 11, s.len() as int) =~= to.text());
            lemma_run_end_unique(s, 3 + k + 11, s.len() as int, CharClass::Word);
            assert(spec_jump(s) == Some(
                Jump { var_start: 3, var_end: 3 + k, label_start: 3 + k + 11 },
            ));
        },
        Instruction::Nop => {
            assert(s[0] == 'n');
            assert(spec_jump(s) is None) by {
                if has_at(s, 0, "if "@) {
                    assert(s.subrange(0, 3)[0] == 'i');
                }
            }
        },
        Instruction::Print { var } => {
            lemma_variable_round_trip(var);
            let k = var.text().len() as int;
            assert(s.len() == 6 + k);
            assert(s[0] == 'p');
            assert(s.subrange(0, 6) =~= "print "@);
            assert(s.subrange(6, 6 + k) =~= var.text());
            lemma_variable_token(s, 6, var);
            assert(spec_jump(s) is None) by {
                if has_at(s, 0, "if "@) {
                    assert(s.subrange(0, 3)[0] == 'i');
                }
            }
            assert(s != "nop"@);
        },
        Instruction::State => {
            assert(s[0] == 's');
            assert(spec_jump(s) is None) by {
                if has_at(s, 0, "if "@) {
                    assert(s.subrange(0, 3)[0] == 'i');
                }
            }
            assert(s != "nop"@);
            assert(spec_print(s) is None);
        },
    }
}

} // verus!
