use urm::assembler::Program;
use urm::machine::{Machine, State};
use urm::program::{Instruction, Label, Variable};

fn source(lines: &[&str]) -> Vec<String> {
    lines.iter().map(|l| l.to_string()).collect()
}

fn run_to_end(program: &Program, inputs: Vec<usize>) -> Machine<'_> {
    let mut machine = Machine::new(State::from_vars(inputs), program);
    assert!(machine.run(10_000_000), "the program did not halt");
    machine
}

#[test]
fn jump_to_label_at_the_end_halts() {
    let program =
        Program::from_source(&source(&["x1 <- x1 + 1", "if x1 != 0 goto A0", "[A0] nop"]))
            .unwrap();
    assert_eq!(
        program.instructions,
        vec![
            Instruction::Increment { var: Variable::X(1) },
            Instruction::JumpNonZero { var: Variable::X(1), to: Label::new(0, 0) },
            Instruction::Nop,
        ]
    );
    assert_eq!(program.label_index(&Label::new(0, 0)), Some(2));
    let machine = run_to_end(&program, vec![1]);
    assert_eq!(machine.state().get_var(&Variable::Y), 0);
    assert_eq!(machine.state().get_var(&Variable::X(1)), 2);
    assert_eq!(machine.state().pc, 3);
}

#[test]
fn copy_macro_keeps_its_source() {
    let program = Program::from_source(&source(&["y <- x1"])).unwrap();
    let machine = run_to_end(&program, vec![3]);
    assert_eq!(machine.state().get_var(&Variable::Y), 3);
    assert_eq!(machine.state().get_var(&Variable::X(1)), 3);
}

#[test]
fn unknown_directive_cites_its_line() {
    let err = Program::from_source(&source(&["nop", "nop", "nop", "nop", "nop", "@foo"]))
        .unwrap_err();
    assert_eq!(err.line_number(), 5);
    assert_eq!(err.message(), "Unknown directive");
    assert_eq!(err.to_text(), "ParseError [line 5]: Unknown directive");
}

fn targets(program: &Program) -> Vec<Label> {
    let mut list = Vec::new();
    for instruction in &program.instructions {
        if let Instruction::JumpNonZero { to, .. } = instruction {
            list.push(*to);
        }
    }
    list
}

#[test]
fn multiplication_twice_shares_no_label() {
    let once = Program::from_source(&source(&["y <- x1 * x2"])).unwrap();
    let twice = Program::from_source(&source(&["y <- x1 * x2", "z1 <- x2 * x1"])).unwrap();
    assert_eq!(twice.instructions.len(), 2 * once.instructions.len());
    assert_eq!(twice.labels.len(), 2 * once.labels.len());
    let half = once.instructions.len();
    for (key, at) in &twice.labels {
        let same = twice.labels.iter().filter(|(other, _)| *other == key).count();
        assert_eq!(same, 1);
        let uses: Vec<usize> = (0..twice.instructions.len())
            .filter(
                |i| matches!(
                    twice.instructions[*i],
                    Instruction::JumpNonZero { to, .. } if to.key() == *key,
                ),
            )
            .collect();
        assert!(!uses.is_empty());
        for i in uses {
            assert_eq!(i < half, *at < half, "a jump leaves its expansion");
        }
    }
    for to in targets(&twice) {
        assert!(twice.label_index(&to).is_some());
    }
    for g in 0..5 {
        assert!(twice.max_labels[g] > once.max_labels[g]);
    }
    assert!(twice.max_temp_var > once.max_temp_var);
    let machine = run_to_end(&twice, vec![6, 7]);
    assert_eq!(machine.state().get_var(&Variable::Y), 42);
    assert_eq!(machine.state().get_var(&Variable::Z(1)), 42);
    assert_eq!(machine.state().get_var(&Variable::X(1)), 6);
    assert_eq!(machine.state().get_var(&Variable::X(2)), 7);
}

#[test]
fn arithmetic_macros_compute() {
    let program = Program::from_source(&source(&[
        "z1 <- x1 + x2",
        "z2 <- x1 - x2",
        "z3 <- x1 / x2",
        "print z1",
        "print z2",
        "print z3",
    ]))
    .unwrap();
    let machine = run_to_end(&program, vec![17, 5]);
    assert_eq!(machine.state().get_var(&Variable::Z(1)), 22);
    assert_eq!(machine.state().get_var(&Variable::Z(2)), 12);
    assert_eq!(machine.state().get_var(&Variable::Z(3)), 3);
    assert_eq!(machine.output().len(), 3);
}

#[test]
fn a_jump_to_a_label_defined_nowhere_ends_the_run() {
    let program =
        Program::from_source(
            &source(&["x1 <- x1 + 1", "if x1 != 0 goto C9", "y <- y + 1"]),
        )
        .unwrap();
    assert_eq!(program.label_index(&Label::new(2, 9)), None);
    let machine = run_to_end(&program, vec![]);
    assert_eq!(machine.state().pc, 3);
    assert_eq!(machine.state().get_var(&Variable::Y), 0);
}

#[test]
fn the_short_names_stand_for_the_primitives() {
    let program = Program::from_source(&source(&[
        "[A2] inc y",
        "     dec x1",
        "     jnz x1 A2",
        "     mov z1 y",
        "     jze x2 B2",
        "     inc y",
        "[B2] jlt x2 z1 C2",
        "     inc y",
        "[C2] nop",
    ]))
    .unwrap();
    let machine = run_to_end(&program, vec![3]);
    assert_eq!(machine.state().get_var(&Variable::Y), 3);
    assert_eq!(machine.state().get_var(&Variable::Z(1)), 3);
    assert_eq!(machine.state().get_var(&Variable::X(1)), 0);
}

#[test]
fn zeroing_and_unconditional_jumps() {
    let program = Program::from_source(
        &source(&["x1 <- 0", "goto A5", "y <- y + 1", "[A5] y <- y + 1"]),
    )
        .unwrap();
    let machine = run_to_end(&program, vec![9]);
    assert_eq!(machine.state().get_var(&Variable::X(1)), 0);
    assert_eq!(machine.state().get_var(&Variable::Y), 1);
}

#[test]
fn a_source_that_is_no_program_gives_no_program() {
    let err = Program::from_source(&source(&["x1 <- x1 + 1", "x1 <- x1 +"])).unwrap_err();
    assert_eq!(err.message(), "Expression x1 <- x1 + is not a valid instruction");
    assert_eq!(err.line_number(), 1);
    assert_eq!(
        err.to_text(),
        "ParseError [line 1]: Expression x1 <- x1 + is not a valid instruction",
    );
    let err = Program::from_source(&source(&["if x1 != 0 goto nowhere"])).unwrap_err();
    assert_eq!(err.message(), "Invalid label name");
    let err = Program::from_source(&source(&["goto nowhere"])).unwrap_err();
    assert_eq!(err.message(), "Invalid label name");
    assert_eq!(err.line_number(), 0);
    let err = Program::from_source(&source(&["nop", "y <- x0"])).unwrap_err();
    assert_eq!(err.message(), "Invalid variable name");
    assert_eq!(err.line_number(), 1);
}

#[test]
fn errors_are_boxed_and_written() {
    let e = urm::error::ParseError::new("Unknown directive", 5);
    assert_eq!(e.message(), "Unknown directive");
    assert_eq!(e.line_number(), 5);
    assert_eq!(e.to_text(), "ParseError [line 5]: Unknown directive");
    let b = urm::error::ParseError::boxed("Invalid label name", 120);
    assert_eq!(b.message(), "Invalid label name");
    assert_eq!(b.line_number(), 120);
    assert_eq!(b.to_text(), "ParseError [line 120]: Invalid label name");
    assert_eq!(urm::error::ParseError::new("", 0).to_text(), "ParseError [line 0]: ");
}

#[test]
fn the_built_in_macros_are_split_into_lines() {
    let lines = urm::text::split_lines(urm::prologue::PROLOGUE);
    assert_eq!(lines.len(), 108);
    assert_eq!(lines[0], "");
    assert_eq!(lines[1], "@def goto {label}");
    assert_eq!(lines[107], "@end");
    assert_eq!(lines.iter().filter(|l| l.starts_with("@def")).count(), 15);
}

#[test]
fn no_label_defined_is_above_the_counter_of_its_group() {
    let program = Program::from_source(&source(&[
        "[A7] y <- x1 + x2",
        "[C3] z5 <- y",
        "     if z5 != 0 goto E9",
        "[B1] x1 <- 0",
    ]))
    .unwrap();
    assert!(program.labels.len() > 3);
    for key in program.labels.keys() {
        assert!(key / 5 <= program.max_labels[key % 5]);
    }
    assert!(program.max_labels[4] >= 9);
    assert!(program.max_temp_var > 5);
    assert_eq!(program.label_index(&Label::new(0, 7)), Some(0));
    assert_eq!(program.label_index(&Label::new(4, 9)), None);
}

#[test]
fn the_copy_macro_expands_into_these_instructions() {
    let program = Program::from_source(&source(&["y <- x1"])).unwrap();
    let x1 = Variable::X(1);
    let y = Variable::Y;
    let z = Variable::Z;
    let inc = |var| Instruction::Increment { var };
    let dec = |var| Instruction::Decrement { var };
    let jump = |var, group, number| Instruction::JumpNonZero { var, to: Label::new(group, number) };
    assert_eq!(
        program.instructions,
        vec![
            dec(y),
            jump(y, 0, 2),
            jump(x1, 1, 2),
            inc(z(1)),
            jump(z(1), 2, 2),
            dec(x1),
            inc(y),
            inc(z(2)),
            inc(z(3)),
            jump(z(3), 0, 3),
            jump(z(2), 3, 2),
            inc(z(4)),
            jump(z(4), 4, 2),
            dec(z(2)),
            inc(x1),
            inc(z(5)),
            jump(z(5), 2, 2),
            Instruction::Nop,
        ]
    );
    let mut labels: Vec<(String, usize)> = program
        .labels
        .iter()
        .map(|(key, at)| (Label::from_key(*key).to_text(), *at))
        .collect();
    labels.sort();
    let expected: Vec<(String, usize)> =
        [("A2", 0), ("A3", 2), ("B2", 5), ("C2", 10), ("D2", 13), ("E2", 17)]
            .iter()
            .map(|(name, at)| (name.to_string(), *at))
            .collect();
    assert_eq!(labels, expected);
    assert_eq!(program.max_labels, [3, 2, 2, 2, 2]);
    assert_eq!(program.max_temp_var, 5);
    let listing: Vec<String> = program.instructions.iter().map(|i| i.to_text()).collect();
    assert_eq!(listing[0], "y <- y - 1");
    assert_eq!(listing[2], "if x1 != 0 goto B2");
    assert_eq!(listing[17], "nop");
}

#[test]
fn the_same_multiplication_twice_keeps_each_jump_in_its_expansion() {
    let p = Program::from_source(&source(&["y <- x1 * x2", "y <- x1 * x2"])).unwrap();
    assert_eq!(p.instructions.len() % 2, 0);
    let h = p.instructions.len() / 2;
    assert_eq!(p.instructions[..h].len(), p.instructions[h..].len());
    let mut jumps = 0;
    for (i, instruction) in p.instructions.iter().enumerate() {
        if let Instruction::JumpNonZero { to, .. } = instruction {
            jumps += 1;
            let at = p.label_index(to).expect("a jump to a label that is defined");
            if i < h {
                assert!(at < h, "jump {} leaves the first expansion for {}", i, at);
            } else {
                assert!(h <= at && at < 2 * h, "jump {} leaves the second expansion for {}", i, at);
            }
        }
    }
    assert!(jumps > 0);
    let mut first: Vec<Label> = targets(&p)[..jumps / 2].to_vec();
    let second: Vec<Label> = targets(&p)[jumps / 2..].to_vec();
    first.retain(|l| second.contains(l));
    assert!(first.is_empty(), "the expansions share {:?}", first);
    let machine = run_to_end(&p, vec![6, 7]);
    assert_eq!(machine.state().get_var(&Variable::Y), 42);
}
