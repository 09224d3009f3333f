use std::collections::HashMap;
use urm::assembler::{prescan, scan_line, Assembly, Program, MAX_EXPANSION_DEPTH};
use urm::expansion::{
    dispatch, expand_line, find_made_label, replace_auto_labels, replace_auto_vars, substitute,
};
use urm::macros::Macro;
use urm::program::{Instruction, Label, Variable};

fn chars(s: &str) -> Vec<char> {
    s.chars().collect()
}

fn text(s: &[char]) -> String {
    s.iter().collect()
}

fn source(lines: &[&str]) -> Vec<String> {
    lines.iter().map(|l| l.to_string()).collect()
}

fn empty(max_temp_var: usize, max_labels: [usize; 5]) -> Assembly {
    Assembly { instructions: Vec::new(), labels: HashMap::new(), max_temp_var, max_labels }
}

fn define(header: &str, body: &[&str]) -> Macro {
    let mut m = Macro::parse(header);
    m.instructions = source(body);
    m
}

fn groups(list: &[&str]) -> Vec<Option<String>> {
    list.iter().map(|g| Some(g.to_string())).collect()
}

const X1: Variable = Variable::X(1);

// ---------------------------------------------------------------------------
// The first pass
// ---------------------------------------------------------------------------

#[test]
fn a_line_is_scanned_for_the_names_it_writes() {
    assert_eq!(scan_line(&chars("z3 <- z12 + 1"), 0, [0; 5]), Some((12, [0; 5])));
    assert_eq!(scan_line(&chars("z3 <- z12 + 1"), 40, [0; 5]), Some((40, [0; 5])));
    assert_eq!(
        scan_line(&chars("[A3] if x1 != 0 goto E10"), 0, [0; 5]),
        Some((0, [3, 0, 0, 0, 10])),
    );
    assert_eq!(scan_line(&chars("[%B7] goto %C2"), 1, [9, 9, 0, 0, 0]), Some((1, [9, 9, 2, 0, 0])));
    assert_eq!(scan_line(&chars("# ABLE3 and D4D5"), 0, [0; 5]), Some((0, [0, 0, 0, 5, 3])));
    assert_eq!(scan_line(&chars(""), 2, [1, 2, 3, 4, 5]), Some((2, [1, 2, 3, 4, 5])));
}

#[test]
fn a_temporary_register_stands_alone() {
    assert_eq!(scan_line(&chars("az5"), 0, [0; 5]), Some((0, [0; 5])));
    assert_eq!(scan_line(&chars("z5a"), 0, [0; 5]), Some((0, [0; 5])));
    assert_eq!(scan_line(&chars("z5_"), 0, [0; 5]), Some((0, [0; 5])));
    assert_eq!(scan_line(&chars("_z5"), 0, [0; 5]), Some((0, [0; 5])));
    assert_eq!(scan_line(&chars("9z5"), 0, [0; 5]), Some((0, [0; 5])));
    assert_eq!(scan_line(&chars("$z5"), 0, [0; 5]), Some((5, [0; 5])));
    assert_eq!(scan_line(&chars("(z5)"), 0, [0; 5]), Some((5, [0; 5])));
    assert_eq!(scan_line(&chars("z5-z6,z7"), 0, [0; 5]), Some((7, [0; 5])));
    assert_eq!(scan_line(&chars("z"), 0, [0; 5]), Some((0, [0; 5])));
    assert_eq!(scan_line(&chars("z5A6"), 0, [0; 5]), Some((0, [6, 0, 0, 0, 0])));
}

#[test]
fn a_number_that_does_not_fit_stops_the_scan() {
    assert_eq!(scan_line(&chars("z99999999999999999999999"), 0, [0; 5]), None);
    assert_eq!(scan_line(&chars("# B99999999999999999999999"), 0, [0; 5]), None);
    let max = format!("z{} C{}", usize::MAX, usize::MAX);
    assert_eq!(scan_line(&chars(&max), 0, [0; 5]), Some((usize::MAX, [0, 0, usize::MAX, 0, 0])));
}

#[test]
fn the_first_pass_scans_every_line() {
    let lines = source(
        &[
            "# uses z9",
            "",
            "@def foo {v}",
            "[%A4] v <- v - 1",
            "@end",
            "[B3] z2 <- z2 + 1",
            "   E1",
        ],
    );
    let (temp, labels) = prescan(&lines, 0, [0; 5]).unwrap();
    assert_eq!(temp, 9);
    assert_eq!(labels, [4, 3, 0, 0, 1]);
    let (temp, labels) = prescan(&lines, 20, [1, 1, 1, 1, 7]).unwrap();
    assert_eq!(temp, 20);
    assert_eq!(labels, [4, 3, 1, 1, 7]);
    let err = prescan(
        &source(&["nop", "nop", "# z99999999999999999999999"]),
        0,
        [0; 5],
    )
    .unwrap_err();
    assert_eq!(err.message(), "Number out of range");
    assert_eq!(err.line_number(), 2);
}

#[test]
fn the_first_pass_seeds_the_counters_of_a_program() {
    let none: Vec<String> = Vec::new();
    let p = Program::assemble(&none, &source(&["# z7 D2", "[A5] nop"]), 64).unwrap();
    assert_eq!(p.max_temp_var, 7);
    assert_eq!(p.max_labels, [5, 0, 0, 2, 0]);
    let p = Program::assemble(&source(&["# z3 A9"]), &source(&["# z7 D2"]), 64).unwrap();
    assert_eq!(p.max_temp_var, 7);
    assert_eq!(p.max_labels, [9, 0, 0, 2, 0]);
    let p = Program::from_source(&none).unwrap();
    assert_eq!(p.max_temp_var, 0);
    assert_eq!(p.max_labels, [1, 1, 1, 1, 1]);
    assert!(p.instructions.is_empty());
    assert!(p.labels.is_empty());
    assert_eq!(p.macros.len(), 15);
}

// ---------------------------------------------------------------------------
// Labels at the start of a line
// ---------------------------------------------------------------------------

#[test]
fn a_label_is_taken_off_the_line_and_entered() {
    let mut a = empty(0, [0; 5]);
    a.instructions.push(Instruction::Nop);
    a.instructions.push(Instruction::Nop);
    let (rest, a) = Program::find_label(&chars("[A3] x1 <- x1 + 1"), a, 0).unwrap();
    assert_eq!(text(&rest), " x1 <- x1 + 1");
    assert_eq!(a.labels.len(), 1);
    assert_eq!(a.labels.get(&Label::new(0, 3).key()), Some(&2));
    assert_eq!(a.instructions.len(), 2);
    assert_eq!(a.max_labels, [0; 5]);
    let (rest, a) = Program::find_label(&chars("[E0]"), a, 0).unwrap();
    assert_eq!(text(&rest), "");
    assert_eq!(a.labels.get(&Label::new(4, 0).key()), Some(&2));
    assert_eq!(a.labels.len(), 2);
}

#[test]
fn a_line_without_a_label_stays_as_it_is() {
    for line in [
        "x1 <- x1 + 1", "", " [A1] nop", "[A1 nop", "[] nop", "[A 1] nop", "A1] nop", "[A1", "[A-1]
        nop", "[%A1] nop",
    ] {
        let (rest, a) = Program::find_label(&chars(line), empty(0, [0; 5]), 0).unwrap();
        assert_eq!(text(&rest), line);
        assert!(a.labels.is_empty());
    }
}

#[test]
fn a_name_in_brackets_that_is_no_label_is_refused() {
    for line in [
        "[foo] nop", "[F1] nop", "[A] nop", "[1] nop", "[a1] nop", "[A1x] nop", "[x1] nop",
        "[A99999999999999999999999] nop",
    ] {
        let err = Program::find_label(&chars(line), empty(0, [0; 5]), 6).unwrap_err();
        assert_eq!(err.message(), "Invalid label name", "{:?}", line);
        assert_eq!(err.line_number(), 6);
    }
}

#[test]
fn a_label_is_defined_once() {
    let (_, a) = Program::find_label(&chars("[C12] nop"), empty(0, [0; 5]), 0).unwrap();
    let (_, a) = Program::find_label(&chars("[C13] nop"), a, 1).unwrap();
    let (_, a) = Program::find_label(&chars("[D12] nop"), a, 2).unwrap();
    let err = Program::find_label(&chars("[C12] state"), a, 3).unwrap_err();
    assert_eq!(err.message(), "Redefined label C12");
    assert_eq!(err.line_number(), 3);
    assert_eq!(err.to_text(), "ParseError [line 3]: Redefined label C12");
}

#[test]
fn a_label_written_with_leading_zeros_is_the_same_label() {
    let (_, a) = Program::find_label(&chars("[C12] nop"), empty(0, [0; 5]), 0).unwrap();
    let err = Program::find_label(&chars("[C012] nop"), a, 1).unwrap_err();
    assert_eq!(err.message(), "Redefined label C12");
}

#[test]
fn a_label_defined_twice_in_a_source_is_refused() {
    let err = Program::from_source(&source(&["[A4] nop", "nop", "[A4] nop"])).unwrap_err();
    assert_eq!(err.message(), "Redefined label A4");
    assert_eq!(err.line_number(), 2);
    let err = Program::from_source(
        &source(&["[B2] x1 <- 0", "", "# note", "[B2] nop"]),
    )
    .unwrap_err();
    assert_eq!(err.message(), "Redefined label B2");
    assert_eq!(err.line_number(), 3);
}

#[test]
fn a_label_of_the_prologue_cannot_be_defined_again() {
    let prologue = source(&["[A1] nop"]);
    let err = Program::assemble(&prologue, &source(&["nop", "[A1] nop"]), 64).unwrap_err();
    assert_eq!(err.message(), "Redefined label A1");
    assert_eq!(err.line_number(), 1);
    let err = Program::assemble(&source(&["[A1] nop", "[A1] nop"]), &source(&[]), 64).unwrap_err();
    assert_eq!(err.message(), "Redefined label A1");
    assert_eq!(err.line_number(), 1);
    let p = Program::assemble(&prologue, &source(&["[A2] nop"]), 64).unwrap();
    assert_eq!(p.label_index(&Label::new(0, 1)), Some(0));
    assert_eq!(p.label_index(&Label::new(0, 2)), Some(1));
    assert_eq!(p.label_index(&Label::new(0, 3)), None);
}

#[test]
fn a_label_in_a_macro_body_is_defined_at_each_call() {
    let err = Program::from_source(
        &source(&["@def twice", "[A9] nop", "@end", "twice", "twice"]),
    )
    .unwrap_err();
    assert_eq!(err.message(), "Redefined label A9");
    assert_eq!(err.line_number(), 4);
}

// ---------------------------------------------------------------------------
// Automatic names and placeholders
// ---------------------------------------------------------------------------

#[test]
fn automatic_labels_are_replaced_by_fresh_ones() {
    let (line, memo, tops) = replace_auto_labels(
        &chars("[%A1] if v != 0 goto %B1"),
        Vec::new(),
        [3, 0, 0, 0, 0],
        0,
    )
    .unwrap();
    assert_eq!(text(&line), "[A4] if v != 0 goto B1");
    assert_eq!(
        memo,
        vec![
            (Label::new(0, 1).key(), Label::new(0, 4).key()),
            (Label::new(1, 1).key(), Label::new(1, 1).key()),
        ],
    );
    assert_eq!(tops, [4, 1, 0, 0, 0]);
    let (line, memo, tops) = replace_auto_labels(
        &chars("goto %A1 or %A2 or %B1 or %A01"),
        memo,
        tops,
        0,
    )
    .unwrap();
    assert_eq!(text(&line), "goto A4 or A5 or B1 or A4");
    assert_eq!(memo.len(), 3);
    assert_eq!(tops, [5, 1, 0, 0, 0]);
    assert_eq!(find_made_label(&memo, Label::new(0, 2).key()), Some(Label::new(0, 5).key()));
    assert_eq!(find_made_label(&memo, Label::new(0, 3).key()), None);
}

#[test]
fn what_is_no_automatic_label_stays() {
    for line in ["", "nop", "100% A1", "%", "%A", "%F1", "%a1", "% A1", "A1%", "%%", "50%E"] {
        let (out, memo, tops) = replace_auto_labels(&chars(line), Vec::new(), [7; 5], 0).unwrap();
        assert_eq!(text(&out), line);
        assert!(memo.is_empty());
        assert_eq!(tops, [7; 5]);
    }
    let (out, _, tops) = replace_auto_labels(&chars("%%E2x %E2"), Vec::new(), [0; 5], 0).unwrap();
    assert_eq!(text(&out), "%E1x E1");
    assert_eq!(tops, [0, 0, 0, 0, 1]);
}

#[test]
fn automatic_labels_that_cannot_be_made_are_refused() {
    let err = replace_auto_labels(
        &chars("goto %A99999999999999999999999"),
        Vec::new(),
        [0; 5],
        8,
    )
    .unwrap_err();
    assert_eq!(err.message(), "Invalid label name");
    assert_eq!(err.line_number(), 8);
    let token = format!("goto %E{}", usize::MAX / 5);
    let err = replace_auto_labels(&chars(&token), Vec::new(), [0; 5], 8).unwrap_err();
    assert_eq!(err.message(), "Invalid label name");
    let err = replace_auto_labels(
        &chars("goto %A1"),
        Vec::new(),
        [usize::MAX / 5, 0, 0, 0, 0],
        8,
    )
    .unwrap_err();
    assert_eq!(err.message(), "Too many labels");
    assert_eq!(err.line_number(), 8);
    let err = replace_auto_labels(
        &chars("goto %B1"),
        Vec::new(),
        [0, usize::MAX, 0, 0, 0],
        8,
    )
    .unwrap_err();
    assert_eq!(err.message(), "Too many labels");
    let (out, _, tops) = replace_auto_labels(
        &chars("goto %A1"),
        Vec::new(),
        [usize::MAX / 5 - 1, 0, 0, 0, 0],
        8,
    )
    .unwrap();
    assert_eq!(text(&out), format!("goto A{}", usize::MAX / 5));
    assert_eq!(tops[0], usize::MAX / 5);
}

#[test]
fn placeholders_take_the_texts_of_the_call() {
    let m = Macro::parse("{v} <- {a} + {b}");
    let call = groups(&["y <- x1 + x2", "y", "x1", "x2"]);
    assert_eq!(text(&substitute(&chars("v <- a"), &m.replacements, &call).unwrap()), "y <- x1");
    assert_eq!(text(&substitute(&chars("$t <- b"), &m.replacements, &call).unwrap()), "$t <- x2");
    assert_eq!(text(&substitute(&chars("nop"), &m.replacements, &call).unwrap()), "nop");
    assert_eq!(text(&substitute(&chars(""), &m.replacements, &call).unwrap()), "");
}

#[test]
fn placeholders_are_replaced_one_after_the_other() {
    let m = Macro::parse("{v} <- {a} + {b}");
    let call = groups(&["a <- b + x1", "a", "b", "x1"]);
    assert_eq!(text(&substitute(&chars("v <- a"), &m.replacements, &call).unwrap()), "x1 <- x1");
    let m = Macro::parse("mov {v1} {v2}");
    let call = groups(&["mov y x1", "y", "x1"]);
    assert_eq!(text(&substitute(&chars("v1 <- v2"), &m.replacements, &call).unwrap()), "y <- x1");
    let m = Macro::parse("inc {v}");
    let call = groups(&["inc x1", "x1"]);
    assert_eq!(text(&substitute(&chars("mov v v"), &m.replacements, &call).unwrap()), "mox1 x1 x1");
}

#[test]
fn a_placeholder_without_a_text_is_refused() {
    let m = Macro::parse("{v} <- {a}");
    assert_eq!(substitute(&chars("nop"), &m.replacements, &groups(&["y <- x1", "y"])), None);
    assert_eq!(substitute(&chars("nop"), &m.replacements, &groups(&[])), None);
    assert_eq!(
        substitute(
            &chars("nop"),
            &m.replacements,
            &vec![Some("y <- x1".to_string()), Some("y".to_string()), None],
        ),
        None,
    );
    assert_eq!(
        substitute(
            &chars("nop"),
            &m.replacements,
            &vec![None, Some("y".to_string()), Some("x1".to_string())],
        )
        .map(|t| text(&t)),
        Some("nop".to_string()),
    );
    assert_eq!(
        substitute(&chars("nop"), &Vec::new(), &groups(&[])).map(|t| text(&t)),
        Some("nop".to_string()),
    );
}

#[test]
fn automatic_registers_are_replaced_by_fresh_ones() {
    let (line, memo, top) = replace_auto_vars(&chars("$a <- $a + 1"), Vec::new(), 4, 0).unwrap();
    assert_eq!(text(&line), "z5 <- z5 + 1");
    assert_eq!(memo, vec![("a".to_string(), 5)]);
    assert_eq!(top, 5);
    let (line, memo, top) = replace_auto_vars(&chars("$u <- $a + $t_1"), memo, top, 0).unwrap();
    assert_eq!(text(&line), "z6 <- z5 + z7");
    assert_eq!(memo, vec![("a".to_string(), 5), ("u".to_string(), 6), ("t_1".to_string(), 7)]);
    assert_eq!(top, 7);
    let (line, _, top) = replace_auto_vars(&chars("$ $$ $- $a- 5$"), memo, top, 0).unwrap();
    assert_eq!(text(&line), "$ $$ $- z5- 5$");
    assert_eq!(top, 7);
}

#[test]
fn automatic_registers_that_cannot_be_made_are_refused() {
    let err = replace_auto_vars(&chars("$a <- $a + 1"), Vec::new(), usize::MAX, 3).unwrap_err();
    assert_eq!(err.message(), "Too many temporary variables");
    assert_eq!(err.line_number(), 3);
    let (line, _, top) = replace_auto_vars(&chars("$a"), Vec::new(), usize::MAX - 1, 3).unwrap();
    assert_eq!(text(&line), format!("z{}", usize::MAX));
    assert_eq!(top, usize::MAX);
    let known = vec![("a".to_string(), 2)];
    let (line, _, top) = replace_auto_vars(&chars("$a"), known, usize::MAX, 3).unwrap();
    assert_eq!(text(&line), "z2");
    assert_eq!(top, usize::MAX);
}

// ---------------------------------------------------------------------------
// Expansion
// ---------------------------------------------------------------------------

#[test]
fn a_call_is_expanded_with_the_texts_it_captured() {
    let macros = vec![define("clear {v}", &["[%A1]   v <- v - 1", "        if v != 0 goto %A1"])];
    let mut a = empty(2, [6, 0, 0, 0, 0]);
    a.instructions.push(Instruction::Nop);
    let a = Program::expand_macro(&macros, 0, &groups(&["clear x1", "x1"]), a, 0, 1).unwrap();
    let a7 = Label::new(0, 7);
    assert_eq!(
        a.instructions,
        vec![
            Instruction::Nop,
            Instruction::Decrement { var: X1 },
            Instruction::JumpNonZero { var: X1, to: a7 },
        ]
    );
    assert_eq!(a.labels.len(), 1);
    assert_eq!(a.labels.get(&a7.key()), Some(&1));
    assert_eq!(a.max_labels, [7, 0, 0, 0, 0]);
    assert_eq!(a.max_temp_var, 2);
}

#[test]
fn each_expansion_has_labels_and_registers_of_its_own() {
    let macros = vec![
        define(
            "bump {v}",
            &["[%C1] $t <- $t + 1", "v <- v + 1", "if $t != 0 goto %C1", "if $u != 0 goto %C2"],
        ),
    ];
    let a = empty(0, [0; 5]);
    let a = Program::expand_macro(&macros, 0, &groups(&["bump y", "y"]), a, 0, 0).unwrap();
    let a = Program::expand_macro(&macros, 0, &groups(&["bump x1", "x1"]), a, 1, 0).unwrap();
    let z = Variable::Z;
    let c = |n| Label::new(2, n);
    assert_eq!(
        a.instructions,
        vec![
            Instruction::Increment { var: z(1) },
            Instruction::Increment { var: Variable::Y },
            Instruction::JumpNonZero { var: z(1), to: c(1) },
            Instruction::JumpNonZero { var: z(2), to: c(2) },
            Instruction::Increment { var: z(3) },
            Instruction::Increment { var: X1 },
            Instruction::JumpNonZero { var: z(3), to: c(3) },
            Instruction::JumpNonZero { var: z(4), to: c(4) },
        ]
    );
    assert_eq!(a.labels.len(), 2);
    assert_eq!(a.labels.get(&c(1).key()), Some(&0));
    assert_eq!(a.labels.get(&c(3).key()), Some(&4));
    assert_eq!(a.max_labels, [0, 0, 4, 0, 0]);
    assert_eq!(a.max_temp_var, 4);
}

#[test]
fn a_line_of_a_body_goes_through_every_step() {
    let macros = vec![define("{v} gets {w}", &[])];
    let call = groups(&["y gets x2", "y", "x2"]);
    let (labels, vars, a) = expand_line(
        &macros,
        0,
        &call,
        &chars("[%D5]   if w != 0 goto %D5  "),
        Vec::new(),
        Vec::new(),
        empty(0, [0; 5]),
        0,
        0,
    )
    .unwrap();
    assert_eq!(labels, vec![(Label::new(3, 5).key(), Label::new(3, 1).key())]);
    assert!(vars.is_empty());
    assert_eq!(
        a.instructions,
        vec![Instruction::JumpNonZero { var: Variable::X(2), to: Label::new(3, 1) }],
    );
    assert_eq!(a.labels.get(&Label::new(3, 1).key()), Some(&0));
    let (labels, vars, a) = expand_line(
        &macros,
        0,
        &call,
        &chars(" $k <- $k - 1"),
        labels,
        vars,
        a,
        0,
        0,
    )
    .unwrap();
    assert_eq!(labels.len(), 1);
    assert_eq!(vars, vec![("k".to_string(), 1)]);
    assert_eq!(a.instructions.len(), 2);
    assert_eq!(a.instructions[1], Instruction::Decrement { var: Variable::Z(1) });
    assert_eq!(a.max_temp_var, 1);
}

#[test]
fn a_line_of_a_body_that_is_nothing_is_left_out() {
    let macros = vec![
        define("odd {v}", &["v <- v + 1", "this is nothing", "", "   ", "$q", "v <- v - 1"]),
    ];
    let a = Program::expand_macro(
        &macros,
        0,
        &groups(&["odd y", "y"]),
        empty(0, [0; 5]),
        0,
        3,
    )
    .unwrap();
    assert_eq!(
        a.instructions,
        vec![
            Instruction::Increment { var: Variable::Y },
            Instruction::Decrement { var: Variable::Y },
        ],
    );
    assert_eq!(a.max_temp_var, 1);
}

#[test]
fn an_error_in_a_body_ends_the_expansion() {
    let macros = vec![define("bad {v}", &["v <- v + 1", "if v != 0 goto nowhere"])];
    let err = Program::expand_macro(
        &macros,
        0,
        &groups(&["bad y", "y"]),
        empty(0, [0; 5]),
        12,
        3,
    )
    .unwrap_err();
    assert_eq!(err.message(), "Invalid label name");
    assert_eq!(err.line_number(), 12);
    let err = Program::expand_macro(
        &macros,
        0,
        &groups(&["bad x0", "x0"]),
        empty(0, [0; 5]),
        12,
        3,
    )
    .unwrap_err();
    assert_eq!(err.message(), "Invalid variable name");
    let err = Program::expand_macro(
        &macros,
        0,
        &groups(&["bad y"]),
        empty(0, [0; 5]),
        12,
        3,
    )
    .unwrap_err();
    assert_eq!(err.message(), "Missing macro argument");
    assert_eq!(err.line_number(), 12);
    let macros = vec![define("bad", &["[foo] nop"])];
    let err = Program::expand_macro(
        &macros,
        0,
        &groups(&["bad"]),
        empty(0, [0; 5]),
        12,
        3,
    )
    .unwrap_err();
    assert_eq!(err.message(), "Invalid label name");
}

#[test]
fn a_label_of_a_body_that_is_defined_already_ends_the_expansion() {
    let macros = vec![define("mark {v}", &["v <- v + 1", "[B7] nop", "v <- v - 1"])];
    let call = groups(&["mark y", "y"]);
    let a = Program::expand_macro(&macros, 0, &call, empty(0, [0, 7, 0, 0, 0]), 3, 4).unwrap();
    assert_eq!(a.instructions.len(), 3);
    assert_eq!(a.labels.get(&Label::new(1, 7).key()), Some(&1));
    let err = Program::expand_macro(&macros, 0, &call, a, 9, 4).unwrap_err();
    assert_eq!(err.message(), "Redefined label B7");
    assert_eq!(err.line_number(), 9);
    let mut held = empty(0, [0, 7, 0, 0, 0]);
    held.labels.insert(Label::new(1, 7).key(), 0);
    let err = Program::expand_macro(&macros, 0, &call, held, 2, 4).unwrap_err();
    assert_eq!(err.message(), "Redefined label B7");
    assert_eq!(err.line_number(), 2);
    let first = vec![define("mark", &["if y != 0 goto nowhere", "[B7] nop"])];
    let mut held = empty(0, [0, 7, 0, 0, 0]);
    held.labels.insert(Label::new(1, 7).key(), 0);
    let err = Program::expand_macro(&first, 0, &groups(&["mark"]), held, 2, 4).unwrap_err();
    assert_eq!(err.message(), "Invalid label name");
}

#[test]
fn a_call_in_a_body_is_expanded_in_turn() {
    let macros = vec![
        define("inc {v}", &["v <- v + 1"]),
        define("add2 {v}", &["inc v", "[%A1] inc v"]),
        define("add4 {v}", &["add2 v", "[%A1] add2 v"]),
    ];
    let a = Program::expand_macro(
        &macros,
        2,
        &groups(&["add4 x1", "x1"]),
        empty(0, [0; 5]),
        0,
        2,
    )
    .unwrap();
    assert_eq!(a.instructions, vec![Instruction::Increment { var: X1 }; 4]);
    assert_eq!(a.labels.len(), 3);
    assert_eq!(a.labels.get(&Label::new(0, 1).key()), Some(&1));
    assert_eq!(a.labels.get(&Label::new(0, 2).key()), Some(&2));
    assert_eq!(a.labels.get(&Label::new(0, 3).key()), Some(&3));
    assert_eq!(a.max_labels, [3, 0, 0, 0, 0]);
    let err = Program::expand_macro(
        &macros,
        2,
        &groups(&["add4 x1", "x1"]),
        empty(0, [0; 5]),
        5,
        1,
    )
    .unwrap_err();
    assert_eq!(err.message(), "Macro expansion nested too deeply");
    assert_eq!(err.line_number(), 5);
    let err = Program::expand_macro(
        &macros,
        1,
        &groups(&["add2 x1", "x1"]),
        empty(0, [0; 5]),
        5,
        0,
    )
    .unwrap_err();
    assert_eq!(err.message(), "Macro expansion nested too deeply");
    let a = Program::expand_macro(
        &macros,
        1,
        &groups(&["add2 x1", "x1"]),
        empty(0, [0; 5]),
        5,
        1,
    )
    .unwrap();
    assert_eq!(a.instructions.len(), 2);
}

#[test]
fn the_first_macro_that_matches_is_called() {
    let macros = vec![
        define("set {v}", &["v <- v + 1"]),
        define("{a} {b}", &["b <- b - 1"]),
        define("set {v}", &["nop"]),
    ];
    let (called, a) = dispatch(&macros, &chars("set y"), empty(0, [0; 5]), 0, 4).unwrap();
    assert!(called);
    assert_eq!(a.instructions, vec![Instruction::Increment { var: Variable::Y }]);
    let (called, a) = dispatch(&macros, &chars("drop y"), empty(0, [0; 5]), 0, 4).unwrap();
    assert!(called);
    assert_eq!(a.instructions, vec![Instruction::Decrement { var: Variable::Y }]);
    let (called, a) = dispatch(&macros, &chars("set  y"), empty(3, [1; 5]), 0, 4).unwrap();
    assert!(!called);
    assert!(a.instructions.is_empty());
    assert_eq!(a.max_temp_var, 3);
    let (called, _) = dispatch(&macros, &chars("set y "), empty(0, [0; 5]), 0, 4).unwrap();
    assert!(!called);
    let (called, _) = dispatch(&macros, &chars("reset y z"), empty(0, [0; 5]), 0, 4).unwrap();
    assert!(!called);
    let (called, _) = dispatch(&Vec::new(), &chars("set y"), empty(0, [0; 5]), 0, 4).unwrap();
    assert!(!called);
    let err = dispatch(&macros, &chars("set y"), empty(0, [0; 5]), 2, 0).unwrap_err();
    assert_eq!(err.message(), "Macro expansion nested too deeply");
    assert_eq!(err.line_number(), 2);
}

#[test]
fn a_name_that_comes_again_in_a_header_must_match_the_same_text() {
    let macros = vec![define("swap {v} {v}", &["v <- v + 1"])];
    let (called, a) = dispatch(&macros, &chars("swap x1 x1"), empty(0, [0; 5]), 0, 4).unwrap();
    assert!(called);
    assert_eq!(a.instructions, vec![Instruction::Increment { var: X1 }]);
    let (called, _) = dispatch(&macros, &chars("swap x1 x2"), empty(0, [0; 5]), 0, 4).unwrap();
    assert!(!called);
}

#[test]
fn a_pattern_that_the_matcher_refuses_is_an_error() {
    let macros = vec![define("a{1,99999999999}", &["nop"])];
    let err = dispatch(&macros, &chars("aa"), empty(0, [0; 5]), 7, 4).unwrap_err();
    assert_eq!(err.message(), "Invalid macro pattern");
    assert_eq!(err.line_number(), 7);
}

#[test]
fn a_match_that_the_matcher_gives_up_is_an_error() {
    let macros = vec![define("{a}{b}{c}{d}{e}{f}{g}{a}!", &["nop"])];
    let line = "a".repeat(60);
    let err = dispatch(&macros, &chars(&line), empty(0, [0; 5]), 7, 4).unwrap_err();
    assert_eq!(err.message(), "Pattern matching failed");
    assert_eq!(err.line_number(), 7);
}

// ---------------------------------------------------------------------------
// The second pass
// ---------------------------------------------------------------------------

#[test]
fn a_line_outside_a_definition_is_assembled() {
    let macros = vec![define("inc {v}", &["v <- v + 1"])];
    let a = Program::parse_line(
        &macros,
        &chars("[B2]   x1 <- x1 - 1  "),
        empty(0, [0; 5]),
        0,
        64,
    )
    .unwrap();
    let a = Program::parse_line(&macros, &chars("   inc y"), a, 1, 64).unwrap();
    let a = Program::parse_line(&macros, &chars("[B3]\tinc x1\t"), a, 2, 64).unwrap();
    assert_eq!(
        a.instructions,
        vec![
            Instruction::Decrement { var: X1 },
            Instruction::Increment { var: Variable::Y },
            Instruction::Increment { var: X1 },
        ]
    );
    assert_eq!(a.labels.get(&Label::new(1, 2).key()), Some(&0));
    assert_eq!(a.labels.get(&Label::new(1, 3).key()), Some(&2));
}

#[test]
fn a_line_outside_a_definition_that_is_nothing_is_refused() {
    let macros = vec![define("inc {v}", &["v <- v + 1"])];
    let err = Program::parse_line(&macros, &chars("  dec y "), empty(0, [0; 5]), 21, 64)
        .unwrap_err();
    assert_eq!(err.message(), "Expression dec y is not a valid instruction");
    assert_eq!(err.line_number(), 21);
    let err = Program::parse_line(&macros, &chars("[A1] "), empty(0, [0; 5]), 21, 64).unwrap_err();
    assert_eq!(err.message(), "Expression  is not a valid instruction");
    let err = Program::parse_line(&macros, &chars("   "), empty(0, [0; 5]), 21, 64).unwrap_err();
    assert_eq!(err.message(), "Expression  is not a valid instruction");
    let err = Program::parse_line(
        &macros,
        &chars("$a <- $a + 1"),
        empty(0, [0; 5]),
        21,
        64,
    )
    .unwrap_err();
    assert_eq!(err.message(), "Expression $a <- $a + 1 is not a valid instruction");
    let err = Program::parse_line(&macros, &chars("[%A1] nop"), empty(0, [0; 5]), 21, 64)
        .unwrap_err();
    assert_eq!(err.message(), "Expression [%A1] nop is not a valid instruction");
}

#[test]
fn the_depth_of_calls_is_limited() {
    assert_eq!(MAX_EXPANSION_DEPTH, 64);
    let none: Vec<String> = Vec::new();
    let err = Program::assemble(
        &none,
        &source(&["@def again", "again", "@end", "nop", "again"]),
        64,
    )
    .unwrap_err();
    assert_eq!(err.message(), "Macro expansion nested too deeply");
    assert_eq!(err.line_number(), 4);
    let mut lines = vec!["@def m0".to_string(), "y <- y + 1".to_string(), "@end".to_string()];
    for n in 1..=63 {
        lines.push(format!("@def m{}", n));
        lines.push(format!("m{}", n - 1));
        lines.push("@end".to_string());
    }
    lines.push("m63".to_string());
    let p = Program::assemble(&none, &lines, MAX_EXPANSION_DEPTH).unwrap();
    assert_eq!(p.instructions, vec![Instruction::Increment { var: Variable::Y }]);
    lines.pop();
    lines.push("@def m64".to_string());
    lines.push("m63".to_string());
    lines.push("@end".to_string());
    lines.push("m64".to_string());
    let err = Program::assemble(&none, &lines, MAX_EXPANSION_DEPTH).unwrap_err();
    assert_eq!(err.message(), "Macro expansion nested too deeply");
    assert_eq!(err.line_number(), lines.len() - 1);
    let p = Program::assemble(&none, &lines, MAX_EXPANSION_DEPTH + 1).unwrap();
    assert_eq!(p.instructions, vec![Instruction::Increment { var: Variable::Y }]);
    let err = Program::assemble(&none, &lines, 3).unwrap_err();
    assert_eq!(err.message(), "Macro expansion nested too deeply");
}

#[test]
fn directives_open_and_close_definitions() {
    let none: Vec<String> = Vec::new();
    let p = Program::assemble(
        &none,
        &source(
            &["@def inc {v}", "  v <- v + 1", "", "# a note", "anything at all", "@end", "inc x1"],
        ),
        64,
    )
    .unwrap();
    assert_eq!(p.instructions, vec![Instruction::Increment { var: X1 }]);
    assert_eq!(p.macros.len(), 1);
    assert_eq!(p.macros[0].pattern, r"^inc (\w+)$");
    assert_eq!(p.macros[0].replacements, vec![("v".to_string(), 0)]);
    assert_eq!(p.macros[0].instructions, source(&["  v <- v + 1", "anything at all"]));
    let p = Program::assemble(
        &none,
        &source(&["@def   spaced   {v}  ", "@end", "@define d", "@endless"]),
        64,
    )
    .unwrap();
    assert_eq!(p.macros.len(), 2);
    assert_eq!(p.macros[0].pattern, r"^spaced   (\w+)$");
    assert_eq!(p.macros[1].pattern, "^ine d$");
}

#[test]
fn a_definition_that_nothing_closes_is_refused() {
    let none: Vec<String> = Vec::new();
    let err = Program::assemble(&none, &source(&["@def foo", "nop"]), 64).unwrap_err();
    assert_eq!(err.message(), "Unclosed @def directive");
    assert_eq!(err.line_number(), 0);
    assert_eq!(err.to_text(), "ParseError [line 0]: Unclosed @def directive");
    let err =
        Program::assemble(&none, &source(&["nop", "@def open {v}", "v <- v + 1"]), 64).unwrap_err();
    assert_eq!(err.message(), "Unclosed @def directive");
    assert_eq!(err.line_number(), 1);
    let err = Program::assemble(&none, &source(&["@def a", "@end", "", "@def b"]), 64).unwrap_err();
    assert_eq!(err.message(), "Unclosed @def directive");
    assert_eq!(err.line_number(), 3);
    let err = Program::assemble(&none, &source(&["@def a", "# @end", " @end", "[A1] @end"]), 64)
        .unwrap_err();
    assert_eq!(err.message(), "Unclosed @def directive");
    assert_eq!(err.line_number(), 0);
    let err = Program::from_source(&source(&["@def foo", "nop"])).unwrap_err();
    assert_eq!(err.message(), "Unclosed @def directive");
    assert_eq!(err.line_number(), 0);
    let err = Program::from_source(&source(&["nop", "y <- x1", "", "@def foo {v}"])).unwrap_err();
    assert_eq!(err.message(), "Unclosed @def directive");
    assert_eq!(err.line_number(), 3);
}

#[test]
fn an_error_before_the_end_comes_before_the_open_definition() {
    let none: Vec<String> = Vec::new();
    let err = Program::assemble(&none, &source(&["@def a", "nop", "@foo"]), 64).unwrap_err();
    assert_eq!(err.message(), "Unknown directive");
    assert_eq!(err.line_number(), 2);
    let err = Program::assemble(&none, &source(&["bad", "@def a"]), 64).unwrap_err();
    assert_eq!(err.message(), "Expression bad is not a valid instruction");
    assert_eq!(err.line_number(), 0);
}

#[test]
fn a_definition_that_the_prologue_leaves_open_is_refused_at_its_line() {
    let prologue = source(&["nop", "", "@def inc {v}", "v <- v + 1"]);
    let err = Program::assemble(&prologue, &source(&["nop"]), 64).unwrap_err();
    assert_eq!(err.message(), "Unclosed @def directive");
    assert_eq!(err.line_number(), 2);
    let err = Program::assemble(&prologue, &source(&[]), 64).unwrap_err();
    assert_eq!(err.line_number(), 2);
    let p = Program::assemble(&prologue, &source(&["@end", "inc y"]), 64).unwrap();
    assert_eq!(p.instructions, vec![Instruction::Nop, Instruction::Increment { var: Variable::Y }]);
    let err = Program::assemble(&prologue, &source(&["@end", "", "@def again"]), 64).unwrap_err();
    assert_eq!(err.message(), "Unclosed @def directive");
    assert_eq!(err.line_number(), 2);
}

#[test]
fn the_built_in_macros_nest_five_deep() {
    let prologue = urm::text::split_lines(urm::prologue::PROLOGUE);
    let calls = [
        "goto A9",
        "if x1 = 0 goto A9",
        "if x1 < x2 goto A9",
        "x1 <- 0",
        "y <- x1",
        "y <- x1 + x2",
        "y <- x1 - x2",
        "y <- x1 * x2",
        "y <- x1 / x2",
        "inc y",
        "dec y",
        "jnz y A9",
        "jze y A9",
        "jlt x1 x2 A9",
        "mov y x1",
    ];
    for call in calls {
        assert!(Program::assemble(&prologue, &source(&[call]), 5).is_ok(), "{:?}", call);
    }
    let err = Program::assemble(&prologue, &source(&["nop", "jlt x1 x2 A9"]), 4).unwrap_err();
    assert_eq!(err.message(), "Macro expansion nested too deeply");
    assert_eq!(err.line_number(), 1);
    let err = Program::assemble(&prologue, &source(&["inc y"]), 0).unwrap_err();
    assert_eq!(err.message(), "Macro expansion nested too deeply");
    assert!(Program::assemble(&prologue, &source(&["inc y"]), 1).is_ok());
    assert!(Program::assemble(&prologue, &source(&["y <- y + 1"]), 0).is_ok());
}

#[test]
fn directives_out_of_place_are_refused() {
    let none: Vec<String> = Vec::new();
    let err = Program::assemble(&none, &source(&["@def a", "nop", "@def b", "@end"]), 64)
        .unwrap_err();
    assert_eq!(err.message(), "Unexpected nested @def directive");
    assert_eq!(err.line_number(), 2);
    let err = Program::assemble(&none, &source(&["nop", "@end"]), 64).unwrap_err();
    assert_eq!(err.message(), "Unexpected @end directive");
    assert_eq!(err.line_number(), 1);
    let err = Program::assemble(&none, &source(&["@def a", "@end", "@end"]), 64).unwrap_err();
    assert_eq!(err.message(), "Unexpected @end directive");
    assert_eq!(err.line_number(), 2);
    for line in ["@foo", "@", "@ def a", "@DEF a", "@de", "@en"] {
        let err = Program::assemble(&none, &source(&["nop", "", line]), 64).unwrap_err();
        assert_eq!(err.message(), "Unknown directive", "{:?}", line);
        assert_eq!(err.line_number(), 2);
        let err = Program::assemble(&none, &source(&["@def a", line]), 64).unwrap_err();
        assert_eq!(err.message(), "Unknown directive");
        assert_eq!(err.line_number(), 1);
    }
}

#[test]
fn empty_lines_and_comments_are_passed_over() {
    let none: Vec<String> = Vec::new();
    let p = Program::assemble(
        &none,
        &source(&["", "# x1 <- x1 + 1", "nop", "", "#", "#@foo", "state"]),
        64,
    )
    .unwrap();
    assert_eq!(p.instructions, vec![Instruction::Nop, Instruction::State]);
    let err = Program::assemble(&none, &source(&["nop", " # not a comment"]), 64).unwrap_err();
    assert_eq!(err.message(), "Expression # not a comment is not a valid instruction");
    assert_eq!(err.line_number(), 1);
    let err = Program::assemble(&none, &source(&["nop", "  "]), 64).unwrap_err();
    assert_eq!(err.message(), "Expression  is not a valid instruction");
    let err = Program::assemble(&none, &source(&[" @def a"]), 64).unwrap_err();
    assert_eq!(err.message(), "Expression @def a is not a valid instruction");
}

#[test]
fn prologue_and_source_count_their_lines_apart() {
    let prologue = source(&["@def inc {v}", "v <- v + 1", "@end", "nop"]);
    let err = Program::assemble(&prologue, &source(&["inc y", "inc"]), 64).unwrap_err();
    assert_eq!(err.message(), "Expression inc is not a valid instruction");
    assert_eq!(err.line_number(), 1);
    let err = Program::assemble(&source(&["nop", "nop", "bad"]), &source(&["nop"]), 64)
        .unwrap_err();
    assert_eq!(err.line_number(), 2);
    let err = Program::assemble(&prologue, &source(&["# z99999999999999999999999"]), 64)
        .unwrap_err();
    assert_eq!(err.message(), "Number out of range");
    assert_eq!(err.line_number(), 0);
    let p = Program::assemble(&prologue, &source(&["inc y"]), 64).unwrap();
    assert_eq!(p.instructions, vec![Instruction::Nop, Instruction::Increment { var: Variable::Y }]);
}

#[test]
fn a_definition_may_run_from_the_prologue_into_the_source() {
    let p = Program::assemble(
        &source(&["@def inc {v}"]),
        &source(&["v <- v + 1", "@end", "inc y"]),
        64,
    )
    .unwrap();
    assert_eq!(p.instructions, vec![Instruction::Increment { var: Variable::Y }]);
}

#[test]
fn names_out_of_range_in_a_source_are_refused() {
    let err = Program::from_source(
        &source(&["nop", "# see z99999999999999999999999"]),
    )
    .unwrap_err();
    assert_eq!(err.message(), "Number out of range");
    assert_eq!(err.line_number(), 1);
    let err = Program::from_source(
        &source(&[&format!("# A{}", usize::MAX / 5), "x1 <- 0"]),
    )
    .unwrap_err();
    assert_eq!(err.message(), "Too many labels");
    assert_eq!(err.line_number(), 1);
    let err = Program::from_source(
        &source(&[&format!("# z{}", usize::MAX), "nop", "goto A1"]),
    )
    .unwrap_err();
    assert_eq!(err.message(), "Too many temporary variables");
    assert_eq!(err.line_number(), 2);
}
