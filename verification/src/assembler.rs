//! The two-pass assembler: a scan for the highest names in the source, then
//! the assembly of each line, with macros expanded as they are met.

use std::collections::HashMap;

use vstd::prelude::*;
use vstd::string::*;

use crate::error::{ParseError, ParseErrorView};
use crate::expansion::{dispatch, dispatched, lemma_dispatched, macro_views};
use crate::hygiene::{labels_within, lemma_assembled_within};
use crate::macros::{Macro, MacroView, spec_macro};
use crate::program::{Instruction, Label, label_capture, parse_label_capture};
use crate::prologue::PROLOGUE;
use crate::text::{
    CharClass, has_at, is_word_char, lemma_run_end, lemma_texts_push, lines, parse_decimal,
    push_range, push_str, read_decimal, run_end, scan_run, slice, split_lines, starts_at, texts,
    to_chars, to_string, trim, trimmed,
};

verus! {

broadcast use {Label::lemma_with_key, Label::lemma_key_determines};

/// The error with the given message and line.
pub open spec fn failure(message: Seq<char>, line_number: usize) -> ParseErrorView {
    ParseErrorView { message, line_number }
}

// =================================================================================================
// The state of an assembly
// =================================================================================================

/// What has been assembled so far, and the highest names in use.
#[derive(Debug)]
pub struct Assembly {
    /// The instructions, in order.
    pub instructions: Vec<Instruction>,
    /// For each label that is defined, by its key, the index of the
    /// instruction it stands before.
    pub labels: HashMap<usize, usize>,
    /// The highest index of a temporary register in use.
    pub max_temp_var: usize,
    /// For each group, the highest label number in use.
    pub max_labels: [usize; 5],
}

/// What an [`Assembly`] stands for.
pub struct AssemblyView {
    /// The instructions, in order.
    pub instructions: Seq<Instruction>,
    /// The labels that are defined, by key, each with the index of the
    /// instruction it stands before.
    pub labels: Map<usize, usize>,
    /// The highest index of a temporary register in use.
    pub max_temp_var: usize,
    /// For each of the five groups, the highest label number in use.
    pub max_labels: Seq<usize>,
}

impl View for Assembly {
    type V = AssemblyView;

    open spec fn view(&self) -> AssemblyView {
        AssemblyView {
            instructions: self.instructions@,
            labels: self.labels@,
            max_temp_var: self.max_temp_var,
            max_labels: self.max_labels@,
        }
    }
}

impl AssemblyView {
    /// There are five label groups, and no instruction names a register 0.
    pub open spec fn well_formed(self) -> bool {
        &&& self.max_labels.len() == 5
        &&& forall|i: int|
            0 <= i < self.instructions.len() ==> (#[trigger] self.instructions[i]).well_formed()
    }

    /// Whether the counters of `self` are at most those of `later`.
    pub open spec fn counters_le(self, later: AssemblyView) -> bool {
        &&& self.max_temp_var <= later.max_temp_var
        &&& at_most(self.max_labels, later.max_labels)
    }

    /// Whether `later` holds all that `self` holds: its instructions at the
    /// same indices, its labels with the same targets, and counters that are
    /// not lower.
    pub open spec fn grows_to(self, later: AssemblyView) -> bool {
        &&& self.instructions.len() <= later.instructions.len()
        &&& forall|i: int|
            0 <= i < self.instructions.len() ==> #[trigger] later.instructions[i]
                == self.instructions[i]
        &&& forall|k: usize| #[trigger]
            self.labels.contains_key(k) ==> later.labels.contains_key(k) && later.labels[k]
                == self.labels[k]
        &&& self.counters_le(later)
    }
}

/// Whether each of the label counters `lo` is at most its fellow in `hi`.
pub open spec fn at_most(lo: Seq<usize>, hi: Seq<usize>) -> bool {
    &&& lo.len() == hi.len()
    &&& forall|g: int| 0 <= g < lo.len() ==> #[trigger] lo[g] <= hi[g]
}

// =================================================================================================
// Pass 1: the highest names in the source
// =================================================================================================

/// Where the temporary register `z<N>` that begins at index `i` of `s` ends.
/// It stands alone: no word character comes right before or behind it.
pub open spec fn temp_token_end(s: Seq<char>, i: int) -> Option<int> {
    let e = run_end(s, i + 1, CharClass::Digit);
    if 0 <= i < s.len() && s[i] == 'z' && (i == 0 || !is_word_char(s[i - 1])) && e > i + 1 && (e
        == s.len() || !is_word_char(s[e])) {
        Some(e)
    } else {
        None
    }
}

/// Where the label `<Group><Number>` that begins at index `i` of `s` ends,
/// whatever stands around it.
pub open spec fn label_token_end(s: Seq<char>, i: int) -> Option<int> {
    let e = run_end(s, i + 1, CharClass::Digit);
    if 0 <= i < s.len() && 'A' <= s[i] && s[i] <= 'E' && e > i + 1 {
        Some(e)
    } else {
        None
    }
}

/// The larger of two numbers.
pub open spec fn larger(a: usize, b: usize) -> usize {
    if a >= b {
        a
    } else {
        b
    }
}

/// The highest names in use.
pub struct Counters {
    /// The highest index of a temporary register in use.
    pub max_temp_var: usize,
    /// For each of the five groups, the highest label number in use.
    pub max_labels: Seq<usize>,
}

/// The counters after the line `s` has been scanned from index `i` on: each
/// temporary register and each label written there raises the counter of its
/// kind to its number. `None` where a number does not fit the machine word.
pub open spec fn scanned_from(s: Seq<char>, i: int, c: Counters) -> Option<Counters>
    decreases s.len() - i,
{
    if i < 0 || i >= s.len() {
        Some(c)
    } else if let Some(e) = temp_token_end(s, i) {
        proof {
            lemma_run_end(s, i + 1, CharClass::Digit);
        }
        match parse_decimal(s.subrange(i + 1, e)) {
            Some(n) => scanned_from(
                s,
                e,
                Counters { max_temp_var: larger(c.max_temp_var, n), max_labels: c.max_labels },
            ),
            None => None,
        }
    } else if let Some(e) = label_token_end(s, i) {
        proof {
            lemma_run_end(s, i + 1, CharClass::Digit);
        }
        match label_capture(s, i, e) {
            Some((g, n)) => scanned_from(
                s,
                e,
                Counters {
                    max_temp_var: c.max_temp_var,
                    max_labels: c.max_labels.update(g as int, larger(c.max_labels[g as int], n)),
                },
            ),
            None => None,
        }
    } else {
        scanned_from(s, i + 1, c)
    }
}

/// The counters after the lines from index `i` on have been scanned.
pub open spec fn prescanned(lines: Seq<Seq<char>>, i: int, c: Counters) -> Result<
    Counters,
    ParseErrorView,
>
    decreases lines.len() - i,
{
    if i < 0 || i >= lines.len() {
        Ok(c)
    } else {
        match scanned_from(lines[i], 0, c) {
            Some(next) => prescanned(lines, i + 1, next),
            None => Err(failure("Number out of range"@, i as usize)),
        }
    }
}

/// Scans one line for the names it writes.
pub fn scan_line(s: &Vec<char>, max_temp_var: usize, max_labels: [usize; 5]) -> (r: Option<
    (usize, [usize; 5]),
>)
    ensures
        match scanned_from(s@, 0, Counters { max_temp_var, max_labels: max_labels@ }) {
            Some(c) => r matches Some(x) && x.0 == c.max_temp_var && x.1@ == c.max_labels,
            None => r is None,
        },
{
    let ghost start = Counters { max_temp_var, max_labels: max_labels@ };
    let mut temp: usize = max_temp_var;
    let mut labels: [usize; 5] = max_labels;
    let mut i: usize = 0;
    while i < s.len()
        invariant
            i <= s.len(),
            start == (Counters { max_temp_var, max_labels: max_labels@ }),
            scanned_from(s@, i as int, Counters { max_temp_var: temp, max_labels: labels@ })
                == scanned_from(s@, 0, start),
        decreases s.len() - i,
    {
        let c = s[i];
        let e = scan_run(s, i + 1, CharClass::Digit);
        if c == 'z' && (i == 0 || !CharClass::Word.holds(s[i - 1])) && e > i + 1 && (e == s.len()
            || !CharClass::Word.holds(s[e])) {
            match read_decimal(s, i + 1, e) {
                Some(n) => {
                    if n > temp {
                        temp = n;
                    }
                },
                None => {
                    return None;
                },
            }
            i = e;
        } else if c >= 'A' && c <= 'E' && e > i + 1 {
            match parse_label_capture(s, i, e) {
                Some((g, n)) => {
                    let ghost before = labels@;
                    if n > labels[g] {
                        labels[g] = n;
                    }
                    assert(labels@ =~= before.update(g as int, larger(before[g as int], n)));
                },
                None => {
                    return None;
                },
            }
            i = e;
        } else {
            i += 1;
        }
    }
    Some((temp, labels))
}

/// Scans the lines of a source for the names they write.
pub fn prescan(source: &Vec<String>, max_temp_var: usize, max_labels: [usize; 5]) -> (r: Result<
    (usize, [usize; 5]),
    ParseError,
>)
    ensures
        match prescanned(texts(source@), 0, Counters { max_temp_var, max_labels: max_labels@ }) {
            Ok(c) => r matches Ok(x) && x.0 == c.max_temp_var && x.1@ == c.max_labels,
            Err(e) => r matches Err(x) && x@ == e,
        },
{
    let ghost start = Counters { max_temp_var, max_labels: max_labels@ };
    let mut temp: usize = max_temp_var;
    let mut labels: [usize; 5] = max_labels;
    let mut i: usize = 0;
    while i < source.len()
        invariant
            i <= source.len(),
            start == (Counters { max_temp_var, max_labels: max_labels@ }),
            prescanned(
                texts(source@),
                i as int,
                Counters { max_temp_var: temp, max_labels: labels@ },
            ) == prescanned(texts(source@), 0, start),
        decreases source.len() - i,
    {
        let line = to_chars(source[i].as_str());
        assert(texts(source@)[i as int] == line@);
        match scan_line(&line, temp, labels) {
            Some(next) => {
                temp = next.0;
                labels = next.1;
            },
            None => {
                return Err(ParseError::new("Number out of range", i));
            },
        }
        i += 1;
    }
    Ok((temp, labels))
}

// =================================================================================================
// Labels at the start of a line
// =================================================================================================

/// Where the name of the label definition `[name]` that begins the line `s`
/// ends: the name is one or more word characters.
pub open spec fn label_prefix(s: Seq<char>) -> Option<int> {
    let j = run_end(s, 1, CharClass::Word);
    if 0 < s.len() && s[0] == '[' && j > 1 && j < s.len() && s[j] == ']' {
        Some(j)
    } else {
        None
    }
}

/// The line and the assembly after the label definition that may begin the
/// line has been taken off and entered: the label then stands for the index of
/// the next instruction. A name that is no label is refused, and so is a label
/// that is defined already.
pub open spec fn defined_label(s: Seq<char>, a: AssemblyView, line_num: usize) -> Result<
    (Seq<char>, AssemblyView),
    ParseErrorView,
> {
    match label_prefix(s) {
        None => Ok((s, a)),
        Some(j) => match Label::spec_parse(s.subrange(1, j)) {
            None => Err(failure("Invalid label name"@, line_num)),
            Some(l) => if a.labels.contains_key(l.key()) {
                Err(failure("Redefined label "@ + l.text(), line_num))
            } else {
                Ok(
                    (
                        s.subrange(j + 1, s.len() as int),
                        AssemblyView {
                            labels: a.labels.insert(l.key(), a.instructions.len() as usize),
                            ..a
                        },
                    ),
                )
            },
        },
    }
}

impl Program {
    /// Takes the label definition that may begin a line off it and enters the
    /// label.
    pub fn find_label(s: &Vec<char>, assembly: Assembly, line_num: usize) -> (r: Result<
        (Vec<char>, Assembly),
        ParseError,
    >)
        ensures
            match defined_label(s@, assembly@, line_num) {
                Ok(v) => r matches Ok(x) && x.0@ == v.0 && x.1@ == v.1,
                Err(e) => r matches Err(x) && x@ == e,
            },
    {
        if s.len() == 0 || s[0] != '[' {
            let rest = slice(s, 0, s.len());
            assert(rest@ =~= s@);
            return Ok((rest, assembly));
        }
        let j = scan_run(s, 1, CharClass::Word);
        if !(j > 1 && j < s.len() && s[j] == ']') {
            let rest = slice(s, 0, s.len());
            assert(rest@ =~= s@);
            return Ok((rest, assembly));
        }
        let name = slice(s, 1, j);
        let label = Label::parse_chars(&name, line_num)?;
        let key = label.key();
        let mut assembly = assembly;
        if assembly.labels.contains_key(&key) {
            let mut message: Vec<char> = Vec::new();
            push_str(&mut message, "Redefined label ");
            label.push_text(&mut message);
            let message = to_string(&message);
            assert(message@ =~= "Redefined label "@ + label.text());
            return Err(ParseError::new(message.as_str(), line_num));
        }
        let at: usize = assembly.instructions.len();
        assembly.labels.insert(key, at);
        Ok((slice(s, j + 1, s.len()), assembly))
    }
}

/// Entering a label adds it to the table and changes nothing else.
pub proof fn lemma_defined_label(s: Seq<char>, a: AssemblyView, line_num: usize)
    ensures
        defined_label(s, a, line_num) matches Ok(r) ==> {
            &&& a.grows_to(r.1)
            &&& r.1.instructions == a.instructions
            &&& r.1.max_temp_var == a.max_temp_var
            &&& r.1.max_labels == a.max_labels
            &&& label_prefix(s) matches Some(j) ==> {
                &&& Label::spec_parse(s.subrange(1, j)) matches Some(l)
                &&& !a.labels.contains_key(l.key())
                &&& r.1.labels.contains_key(l.key())
            }
        },
{
}

/// A label is defined once: where a line defines a label and a later line
/// defines the label of the same group and number, the later line is refused
/// as a redefinition, whatever was assembled in between.
pub proof fn lemma_defined_twice(
    first: Seq<char>,
    a: AssemblyView,
    first_line: usize,
    second: Seq<char>,
    b: AssemblyView,
    second_line: usize,
    l: Label,
)
    requires
        label_prefix(first) matches Some(j) && Label::spec_parse(first.subrange(1, j)) == Some(l),
        label_prefix(second) matches Some(j) && Label::spec_parse(second.subrange(1, j)) == Some(
            l,
        ),
        defined_label(first, a, first_line) matches Ok(r) && r.1.grows_to(b),
    ensures
        defined_label(second, b, second_line) == Err::<(Seq<char>, AssemblyView), ParseErrorView>(
            failure("Redefined label "@ + l.text(), second_line),
        ),
{
    lemma_defined_label(first, a, first_line);
}

// =================================================================================================
// Pass 2: assembly
// =================================================================================================

/// The assembly after the line `s`, which stands outside any macro
/// definition: the label it may define is entered, and what is left is
/// assembled as an instruction or as a macro call, whose calls may nest
/// `depth` deep. A line that is neither is refused.
pub open spec fn assembled_line(
    macros: Seq<MacroView>,
    s: Seq<char>,
    a: AssemblyView,
    line_num: usize,
    depth: nat,
) -> Result<AssemblyView, ParseErrorView> {
    match defined_label(s, a, line_num) {
        Err(e) => Err(e),
        Ok((rest, b)) => match Instruction::spec_parse(trim(rest)) {
            Err(message) => Err(failure(message, line_num)),
            Ok(Some(instruction)) => Ok(
                AssemblyView { instructions: b.instructions.push(instruction), ..b },
            ),
            Ok(None) => match dispatched(macros, trim(rest), 0, b, line_num, depth) {
                Err(e) => Err(e),
                Ok(Some(c)) => Ok(c),
                Ok(None) => Err(
                    failure(
                        "Expression "@ + trim(rest) + " is not a valid instruction"@,
                        line_num,
                    ),
                ),
            },
        },
    }
}

impl Program {
    /// Assembles a line that stands outside any macro definition. The macro
    /// calls that the line leads to may nest `depth` deep.
    pub fn parse_line(
        macros: &Vec<Macro>,
        s: &Vec<char>,
        assembly: Assembly,
        line_num: usize,
        depth: usize,
    ) -> (r: Result<Assembly, ParseError>)
        requires
            assembly@.well_formed(),
        ensures
            match assembled_line(macro_views(macros@), s@, assembly@, line_num, depth as nat) {
                Ok(a) => r matches Ok(x) && x@ == a && a.well_formed(),
                Err(e) => r matches Err(x) && x@ == e,
            },
    {
        let defined = Program::find_label(s, assembly, line_num)?;
        let text = trimmed(&defined.0);
        let mut current = defined.1;
        match Instruction::parse_chars(&text, line_num)? {
            Some(instruction) => {
                current.instructions.push(instruction);
                Ok(current)
            },
            None => {
                let done = dispatch(macros, &text, current, line_num, depth)?;
                if done.0 {
                    Ok(done.1)
                } else {
                    let mut message: Vec<char> = Vec::new();
                    push_str(&mut message, "Expression ");
                    push_range(&mut message, &text, 0, text.len());
                    push_str(&mut message, " is not a valid instruction");
                    let message = to_string(&message);
                    assert(text@.subrange(0, text.len() as int) =~= text@);
                    assert(message@ =~= "Expression "@ + text@
                        + " is not a valid instruction"@);
                    Err(ParseError::new(message.as_str(), line_num))
                }
            },
        }
    }
}

/// The state of the second pass.
pub struct Pass {
    /// The macros defined so far, in order.
    pub macros: Seq<MacroView>,
    /// The macro whose definition is open, if one is.
    pub open: Option<MacroView>,
    /// The line of the `@def` that opened the definition that is open; where
    /// none is open, the line of the one that was opened last, or 0.
    pub opened_at: usize,
    /// What has been assembled.
    pub assembly: AssemblyView,
}

/// The state of the pass after the lines from index `i` on. Empty lines and
/// lines that begin with `#` are passed over. `@def` opens a macro definition
/// and `@end` closes it; until then the lines are its body, as they stand.
/// Every other line is assembled, with macro calls that may nest `depth`
/// deep.
pub open spec fn assembled_from(source: Seq<Seq<char>>, i: int, st: Pass, depth: nat) -> Result<
    Pass,
    ParseErrorView,
>
    decreases source.len() - i,
{
    if i < 0 || i >= source.len() {
        Ok(st)
    } else {
        let line = source[i];
        let n = i as usize;
        if line.len() == 0 || line[0] == '#' {
            assembled_from(source, i + 1, st, depth)
        } else if line[0] == '@' {
            if has_at(line, 0, "@def"@) {
                let m = spec_macro(trim(line.subrange("@def"@.len() as int, line.len() as int)));
                if st.open is Some {
                    Err(failure("Unexpected nested @def directive"@, n))
                } else {
                    assembled_from(
                        source,
                        i + 1,
                        Pass { open: Some(m), opened_at: n, ..st },
                        depth,
                    )
                }
            } else if has_at(line, 0, "@end"@) {
                match st.open {
                    Some(m) => assembled_from(
                        source,
                        i + 1,
                        Pass { macros: st.macros.push(m), open: None, ..st },
                        depth,
                    ),
                    None => Err(failure("Unexpected @end directive"@, n)),
                }
            } else {
                Err(failure("Unknown directive"@, n))
            }
        } else {
            match st.open {
                Some(m) => assembled_from(
                    source,
                    i + 1,
                    Pass { open: Some(MacroView { body: m.body.push(line), ..m }), ..st },
                    depth,
                ),
                None => match assembled_line(st.macros, line, st.assembly, n, depth) {
                    Ok(a) => assembled_from(source, i + 1, Pass { assembly: a, ..st }, depth),
                    Err(e) => Err(e),
                },
            }
        }
    }
}

/// Assembling a line only adds to the assembly.
pub proof fn lemma_assembled_line(
    macros: Seq<MacroView>,
    s: Seq<char>,
    a: AssemblyView,
    line_num: usize,
    depth: nat,
)
    requires
        a.max_labels.len() == 5,
    ensures
        assembled_line(macros, s, a, line_num, depth) matches Ok(b) ==> a.grows_to(b),
{
    lemma_defined_label(s, a, line_num);
    if let Ok((rest, b)) = defined_label(s, a, line_num) {
        lemma_dispatched(macros, trim(rest), 0, b, line_num, depth);
    }
}

/// The second pass only adds: to the assembly, and to the list of macros.
pub proof fn lemma_assembled_from(source: Seq<Seq<char>>, i: int, st: Pass, depth: nat)
    requires
        st.assembly.max_labels.len() == 5,
    ensures
        assembled_from(source, i, st, depth) matches Ok(r) ==> {
            &&& st.assembly.grows_to(r.assembly)
            &&& st.macros.len() <= r.macros.len()
            &&& forall|k: int| 0 <= k < st.macros.len() ==> #[trigger] r.macros[k] == st.macros[k]
        },
    decreases source.len() - i,
{
    if 0 <= i < source.len() {
        let line = source[i];
        let n = i as usize;
        if line.len() == 0 || line[0] == '#' {
            lemma_assembled_from(source, i + 1, st, depth);
        } else if line[0] == '@' {
            if has_at(line, 0, "@def"@) {
                let m = spec_macro(trim(line.subrange("@def"@.len() as int, line.len() as int)));
                lemma_assembled_from(
                        source,
                        i + 1,
                        Pass { open: Some(m), opened_at: n, ..st },
                        depth,
                    );
            } else if has_at(line, 0, "@end"@) {
                if let Some(m) = st.open {
                    lemma_assembled_from(
                        source,
                        i + 1,
                        Pass { macros: st.macros.push(m), open: None, ..st },
                        depth,
                    );
                }
            }
        } else {
            match st.open {
                Some(m) => {
                    lemma_assembled_from(
                        source,
                        i + 1,
                        Pass { open: Some(MacroView { body: m.body.push(line), ..m }), ..st },
                        depth,
                    );
                },
                None => {
                    lemma_assembled_line(st.macros, line, st.assembly, n, depth);
                    if let Ok(a) = assembled_line(st.macros, line, st.assembly, n, depth) {
                        lemma_assembled_from(source, i + 1, Pass { assembly: a, ..st }, depth);
                    }
                },
            }
        }
    }
}

/// A definition that is open stays open over lines of which none is a
/// directive: they become its body, and nothing is assembled.
pub proof fn lemma_definition_stays_open(source: Seq<Seq<char>>, i: int, st: Pass, depth: nat)
    requires
        0 <= i,
        st.open is Some,
        forall|k: int|
            i <= k < source.len() ==> (#[trigger] source[k]).len() == 0 || source[k][0] != '@',
    ensures
        assembled_from(source, i, st, depth) matches Ok(r) && r.open is Some && r.opened_at
            == st.opened_at && r.macros == st.macros && r.assembly == st.assembly,
    decreases source.len() - i,
{
    if i < source.len() {
        let line = source[i];
        if line.len() == 0 || line[0] == '#' {
            lemma_definition_stays_open(source, i + 1, st, depth);
        } else {
            let m = st.open->0;
            lemma_definition_stays_open(
                source,
                i + 1,
                Pass { open: Some(MacroView { body: m.body.push(line), ..m }), ..st },
                depth,
            );
        }
    }
}

/// A definition that no `@end` closes is open where the lines end: where a
/// `@def` stands at line `at` outside any definition and no directive follows
/// it, the pass ends with that definition open, and knows its line. A source
/// that ends so is refused.
pub proof fn lemma_unclosed_definition(source: Seq<Seq<char>>, at: int, st: Pass, depth: nat)
    requires
        0 <= at < source.len(),
        source.len() <= usize::MAX,
        st.open is None,
        has_at(source[at], 0, "@def"@),
        forall|k: int|
            at < k < source.len() ==> (#[trigger] source[k]).len() == 0 || source[k][0] != '@',
    ensures
        assembled_from(source, at, st, depth) matches Ok(r) && r.open is Some && r.opened_at
            == at,
{
    reveal_strlit("@def");
    let line = source[at];
    assert(line.subrange(0, 4)[0] == line[0]);
    let m = spec_macro(trim(line.subrange("@def"@.len() as int, line.len() as int)));
    lemma_definition_stays_open(
        source,
        at + 1,
        Pass { open: Some(m), opened_at: at as usize, ..st },
        depth,
    );
}

/// What an open macro definition stands for.
pub open spec fn open_view(open: Option<Macro>) -> Option<MacroView> {
    match open {
        Some(m) => Some(m@),
        None => None,
    }
}

/// Runs the second pass over the lines of a source. The macro calls of a
/// line may nest `depth` deep.
pub fn assemble_lines(
    source: &Vec<String>,
    macros: Vec<Macro>,
    open: Option<Macro>,
    opened_at: usize,
    assembly: Assembly,
    depth: usize,
) -> (r: Result<(Vec<Macro>, Option<Macro>, usize, Assembly), ParseError>)
    requires
        assembly@.well_formed(),
    ensures
        match assembled_from(
            texts(source@),
            0,
            Pass {
                macros: macro_views(macros@),
                open: open_view(open),
                opened_at,
                assembly: assembly@,
            },
            depth as nat,
        ) {
            Ok(st) => r matches Ok(x) && macro_views(x.0@) == st.macros && open_view(x.1)
                == st.open && x.2 == st.opened_at && x.3@ == st.assembly
                && st.assembly.well_formed(),
            Err(e) => r matches Err(x) && x@ == e,
        },
{
    let ghost start = Pass {
        macros: macro_views(macros@),
        open: open_view(open),
        opened_at,
        assembly: assembly@,
    };
    let mut defined = macros;
    let mut current = open;
    let mut opened: usize = opened_at;
    let mut built = assembly;
    let def = to_chars("@def");
    let end = to_chars("@end");
    let mut i: usize = 0;
    while i < source.len()
        invariant
            i <= source.len(),
            def@ == "@def"@,
            end@ == "@end"@,
            built@.well_formed(),
            start == (Pass {
                macros: macro_views(macros@),
                open: open_view(open),
                opened_at,
                assembly: assembly@,
            }),
            assembled_from(
                texts(source@),
                i as int,
                Pass {
                    macros: macro_views(defined@),
                    open: open_view(current),
                    opened_at: opened,
                    assembly: built@,
                },
                depth as nat,
            ) == assembled_from(texts(source@), 0, start, depth as nat),
        decreases source.len() - i,
    {
        let line = to_chars(source[i].as_str());
        assert(texts(source@)[i as int] == line@);
        if line.len() == 0 || line[0] == '#' {
        } else if line[0] == '@' {
            if starts_at(&line, 0, &def) {
                let header = trimmed(&slice(&line, def.len(), line.len()));
                let m = Macro::parse_chars(&header);
                if current.is_some() {
                    return Err(ParseError::new("Unexpected nested @def directive", i));
                }
                current = Some(m);
                opened = i;
            } else if starts_at(&line, 0, &end) {
                match current {
                    Some(m) => {
                        let ghost before = defined@;
                        defined.push(m);
                        assert(macro_views(defined@) =~= macro_views(before).push(m@));
                        current = None;
                    },
                    None => {
                        return Err(ParseError::new("Unexpected @end directive", i));
                    },
                }
            } else {
                return Err(ParseError::new("Unknown directive", i));
            }
        } else {
            match current {
                Some(m) => {
                    let mut m = m;
                    let ghost before = m.instructions@;
                    let owned = to_string(&line);
                    m.instructions.push(owned);
                    proof {
                        lemma_texts_push(before, owned);
                    }
                    current = Some(m);
                },
                None => {
                    built = Program::parse_line(&defined, &line, built, i, depth)?;
                    current = None;
                },
            }
        }
        i += 1;
    }
    Ok((defined, current, opened, built))
}

// =================================================================================================
// Programs
// =================================================================================================

/// What a [`Program`] stands for.
pub struct ProgramView {
    /// The instructions, in order.
    pub instructions: Seq<Instruction>,
    /// The labels that are defined, by key, each with the index of the
    /// instruction it stands before.
    pub labels: Map<usize, usize>,
    /// The macros, in the order of their definitions.
    pub macros: Seq<MacroView>,
    /// The highest index of a temporary register in use.
    pub max_temp_var: usize,
    /// For each of the five groups, the highest label number in use.
    pub max_labels: Seq<usize>,
}

/// An assembled program.
#[derive(Debug)]
pub struct Program {
    /// The instructions, in order.
    pub instructions: Vec<Instruction>,
    /// For each label that is defined, by its key, the index of the
    /// instruction it stands before.
    pub labels: HashMap<usize, usize>,
    /// The macros, in the order of their definitions.
    pub macros: Vec<Macro>,
    /// The highest index of a temporary register in use.
    pub max_temp_var: usize,
    /// For each group, the highest label number in use.
    pub max_labels: [usize; 5],
}

impl View for Program {
    type V = ProgramView;

    open spec fn view(&self) -> ProgramView {
        ProgramView {
            instructions: self.instructions@,
            labels: self.labels@,
            macros: macro_views(self.macros@),
            max_temp_var: self.max_temp_var,
            max_labels: self.max_labels@,
        }
    }
}

/// How deep [`Program::from_source`] lets macro calls nest: a call in the
/// body of a call in the body of a call, and so on.
///
/// The language sets no bound, but the expansion calls itself once for each
/// level, so it needs one: a macro that leads back to itself would never end.
/// The built-in macros nest five deep at most (`jlt` calls `if <`, that the
/// subtraction, that the copy, that the zeroing). 64 leaves a source more than
/// ten times that for macros of its own, and the frames of that many levels
/// are a small part of a thread's stack. A source that nests deeper is
/// assembled with [`Program::assemble`], which takes the depth from its
/// caller.
pub const MAX_EXPANSION_DEPTH: usize = 64;

/// The counters before anything is scanned.
pub open spec fn no_names() -> Counters {
    Counters { max_temp_var: 0, max_labels: seq![0usize, 0usize, 0usize, 0usize, 0usize] }
}

/// The program that a prologue and a source make. The first pass scans the
/// lines of both for the highest names; the second assembles the prologue and
/// then the source, each with line numbers of its own that begin at 0, and
/// with macro calls that may nest `depth` deep. A macro definition that is
/// still open where the source ends is refused, at the line of its `@def`.
pub open spec fn assembled(
    prologue: Seq<Seq<char>>,
    source: Seq<Seq<char>>,
    depth: nat,
) -> Result<ProgramView, ParseErrorView> {
    match prescanned(prologue, 0, no_names()) {
        Err(e) => Err(e),
        Ok(c) => match prescanned(source, 0, c) {
            Err(e) => Err(e),
            Ok(d) => match assembled_from(
                prologue,
                0,
                Pass {
                    macros: Seq::empty(),
                    open: None,
                    opened_at: 0,
                    assembly: AssemblyView {
                        instructions: Seq::empty(),
                        labels: Map::empty(),
                        max_temp_var: d.max_temp_var,
                        max_labels: d.max_labels,
                    },
                },
                depth,
            ) {
                Err(e) => Err(e),
                Ok(p) => match assembled_from(source, 0, p, depth) {
                    Err(e) => Err(e),
                    Ok(q) => if q.open is Some {
                        Err(failure("Unclosed @def directive"@, q.opened_at))
                    } else {
                        Ok(
                            ProgramView {
                                instructions: q.assembly.instructions,
                                labels: q.assembly.labels,
                                macros: q.macros,
                                max_temp_var: q.assembly.max_temp_var,
                                max_labels: q.assembly.max_labels,
                            },
                        )
                    },
                },
            },
        },
    }
}

impl Program {
    /// No instruction of the program names a register 0.
    pub open spec fn well_formed(&self) -> bool {
        forall|i: int|
            0 <= i < self.instructions@.len() ==> (#[trigger] self.instructions@[i]).well_formed()
    }

    /// Assembles a source behind a prologue of its own, with macro calls
    /// that may nest `max_depth` deep. Each level takes room on the stack
    /// while it is expanded, so the depth should be one that the stack holds.
    pub fn assemble(prologue: &Vec<String>, source: &Vec<String>, max_depth: usize) -> (r: Result<
        Self,
        ParseError,
    >)
        ensures
            match assembled(texts(prologue@), texts(source@), max_depth as nat) {
                Ok(p) => r matches Ok(x) && x@ == p && x.well_formed(),
                Err(e) => r matches Err(x) && x@ == e,
            },
            r matches Ok(x) ==> labels_within(x@.labels, x@.max_labels),
    {
        proof {
            lemma_assembled_within(texts(prologue@), texts(source@), max_depth as nat);
        }
        let zero: [usize; 5] = [0, 0, 0, 0, 0];
        assert(zero@ =~= no_names().max_labels);
        let c = prescan(prologue, 0, zero)?;
        let d = prescan(source, c.0, c.1)?;
        let start = Assembly {
            instructions: Vec::new(),
            labels: HashMap::new(),
            max_temp_var: d.0,
            max_labels: d.1,
        };
        let macros: Vec<Macro> = Vec::new();
        assert(macro_views(macros@) =~= Seq::empty());
        let p = assemble_lines(prologue, macros, None, 0, start, max_depth)?;
        let q = assemble_lines(source, p.0, p.1, p.2, p.3, max_depth)?;
        if q.1.is_some() {
            return Err(ParseError::new("Unclosed @def directive", q.2));
        }
        let built = q.3;
        Ok(
            Program {
                instructions: built.instructions,
                labels: built.labels,
                macros: q.0,
                max_temp_var: built.max_temp_var,
                max_labels: built.max_labels,
            },
        )
    }

    /// Assembles a source behind the built-in macros, with macro calls that
    /// may nest [`MAX_EXPANSION_DEPTH`] deep.
    pub fn from_source(source: &Vec<String>) -> (r: Result<Self, ParseError>)
        ensures
            match assembled(lines(PROLOGUE@), texts(source@), MAX_EXPANSION_DEPTH as nat) {
                Ok(p) => r matches Ok(x) && x@ == p && x.well_formed(),
                Err(e) => r matches Err(x) && x@ == e,
            },
            r matches Ok(x) ==> labels_within(x@.labels, x@.max_labels),
    {
        let prologue = split_lines(PROLOGUE);
        Self::assemble(&prologue, source, MAX_EXPANSION_DEPTH)
    }

    /// The index of the instruction that a label stands before, if the label
    /// is defined.
    pub fn label_index(&self, label: &Label) -> (r: Option<usize>)
        ensures
            r == (if self@.labels.contains_key(label.key()) {
                Some(self@.labels[label.key()])
            } else {
                None
            }),
    {
        let key = label.key();
        match self.labels.get(&key) {
            Some(at) => Some(*at),
            None => None,
        }
    }
}

} // verus!
