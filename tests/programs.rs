use bfcomp::{run, Action, BFExecutable, BFProgram, Instruction, Interpreter, Outcome, ParseError};

const FUEL: usize = 1_000_000;

fn parse(src: &str) -> BFProgram {
    match BFProgram::parse_program(src) {
        Ok(p) => p,
        Err(e) => panic!("parse failed: {:?}", e),
    }
}

#[test]
fn prints_three() {
    let p = parse("+++.");
    let r = run(&p, &vec![], FUEL);
    assert_eq!(r.outcome, Outcome::Halted);
    assert_eq!(r.output, vec![0x03]);
    assert_eq!(r.tape[0], 3);
}

#[test]
fn reads_and_increments() {
    let p = parse(",+.");
    let r = run(&p, &vec![0x41], FUEL);
    assert_eq!(r.outcome, Outcome::Halted);
    assert_eq!(r.output, vec![0x42]);
}

#[test]
fn moves_one_cell() {
    let p = parse("+[>+<-]");
    let r = run(&p, &vec![], FUEL);
    assert_eq!(r.outcome, Outcome::Halted);
    assert_eq!(r.tape[0], 0);
    assert_eq!(r.tape[1], 1);
    assert!(r.output.is_empty());
}

#[test]
fn adds_two_cells() {
    let p = parse("++>+++<[->+<]");
    let r = run(&p, &vec![], FUEL);
    assert_eq!(r.outcome, Outcome::Halted);
    assert_eq!(r.tape[0], 0);
    assert_eq!(r.tape[1], 5);
}

#[test]
fn hello_world() {
    let p = parse("++++++++[>++++[>++>+++>+++>+<<<<-]>+>+>->>+[<]<-]>>.>---.+++++++..+++.>>.<-.<.+++.------.--------.>>+.>++.");
    let r = run(&p, &vec![], FUEL);
    assert_eq!(r.outcome, Outcome::Halted);
    // this program writes no comma: 13 bytes, "Hello World!" and a newline
    assert_eq!(r.output, b"Hello World!\n".to_vec());
}

#[test]
fn cat_until_end_of_input() {
    let p = parse(",[.,]");
    let r = run(&p, &b"cat\n".to_vec(), FUEL);
    assert_eq!(r.output, b"cat\n".to_vec());
    assert_eq!(r.outcome, Outcome::EndOfInput);
}

#[test]
fn run_of_255_prints_ff() {
    let src = format!("{}.", "+".repeat(255));
    let r = run(&parse(&src), &vec![], FUEL);
    assert_eq!(r.output, vec![0xff]);
}

#[test]
fn run_of_256_prints_zero() {
    let src = format!("{}.", "+".repeat(256));
    let r = run(&parse(&src), &vec![], FUEL);
    assert_eq!(r.output, vec![0x00]);
}

#[test]
fn long_runs_split_at_255() {
    let p = parse(&"+".repeat(256));
    assert_eq!(p.instructions().clone(), vec![Instruction::Add(255), Instruction::Add(1)]);
    let q = parse(&"-".repeat(600));
    assert_eq!(
        q.instructions().clone(),
        vec![Instruction::Sub(255), Instruction::Sub(255), Instruction::Sub(90)]
    );
}

#[test]
fn wrap_around_restores_cell() {
    let src = format!("+++{}", "+".repeat(256));
    let r = run(&parse(&src), &vec![], FUEL);
    assert_eq!(r.tape[0], 3);
}

#[test]
fn nested_loops_three_deep() {
    // 2 * 3 * 4 = 24 increments of cell 3
    let p = parse("++[>+++[>++++[>+<-]<-]<-]>>>.");
    let r = run(&p, &vec![], FUEL);
    assert_eq!(r.outcome, Outcome::Halted);
    assert_eq!(r.output, vec![24]);
}

#[test]
fn unmatched_close_rejected() {
    assert!(matches!(BFProgram::parse_program("+]"), Err(ParseError::UnmatchedClose)));
}

#[test]
fn leading_close_rejected() {
    assert!(matches!(BFProgram::parse_program("][+"), Err(ParseError::UnmatchedClose)));
}

#[test]
fn unmatched_open_rejected() {
    assert!(matches!(BFProgram::parse_program("[[]"), Err(ParseError::UnmatchedOpen)));
}

#[test]
fn folds_runs_and_links_brackets() {
    let p = parse("a++ >>\n[-]<,,..");
    assert_eq!(
        p.instructions().clone(),
        vec![
            Instruction::Add(2),
            Instruction::Right(2),
            Instruction::JumpIfZero(5),
            Instruction::Sub(1),
            Instruction::JumpIfNotZero(3),
            Instruction::Left(1),
            Instruction::Input(2),
            Instruction::Output(2),
        ]
    );
}

#[test]
fn parse_twice_same_program() {
    let src = "++[>+<-]>[<++>-]";
    let a = parse(src);
    let b = parse(src);
    assert_eq!(a.instructions(), b.instructions());
}

#[test]
fn underflow_is_reported() {
    let r = run(&parse("+<"), &vec![], FUEL);
    assert_eq!(r.outcome, Outcome::Underflow);
}

#[test]
fn fuel_runs_out_on_endless_loop() {
    let r = run(&parse("+[]"), &vec![], 100);
    assert_eq!(r.outcome, Outcome::OutOfFuel);
}

#[test]
fn tape_grows_on_demand() {
    let src = format!("{}+", ">".repeat(100));
    let r = run(&parse(&src), &vec![], FUEL);
    assert_eq!(r.outcome, Outcome::Halted);
    assert_eq!(r.tape[100], 1);
}

#[test]
fn stepping_by_hand() {
    let p = parse(",..");
    let mut m = Interpreter::new();
    assert_eq!(m.step(&p), Action::NeedsByte);
    m.feed(&p, 7);
    assert_eq!(m.step(&p), Action::Wrote(7));
    assert_eq!(m.step(&p), Action::Wrote(7));
    assert_eq!(m.step(&p), Action::Halted);
    assert_eq!(m.tape()[0], 7);
    assert_eq!(m.tape().len(), 64);
}

#[test]
fn jit_code_for_add() {
    let code = parse("+").jit_compile().unwrap();
    assert_eq!(code, vec![0x80, 0x07, 0x01, 0xc3]);
}

#[test]
fn jit_code_for_moves() {
    assert_eq!(
        parse(">>>").jit_compile().unwrap(),
        vec![0x48, 0x81, 0xc7, 0x03, 0x00, 0x00, 0x00, 0xc3]
    );
    assert_eq!(
        parse("<").jit_compile().unwrap(),
        vec![0x48, 0x81, 0xef, 0x01, 0x00, 0x00, 0x00, 0xc3]
    );
}

#[test]
fn jit_code_for_output_and_input() {
    let out = parse(".").jit_compile().unwrap();
    assert_eq!(
        out,
        vec![
            0x57, 0x48, 0xc7, 0xc0, 0x01, 0x00, 0x00, 0x00, 0x48, 0x89, 0xfe, 0x48, 0xc7, 0xc7,
            0x01, 0x00, 0x00, 0x00, 0x48, 0xc7, 0xc2, 0x01, 0x00, 0x00, 0x00, 0x0f, 0x05, 0x5f,
            0xc3
        ]
    );
    let inp = parse(",,").jit_compile().unwrap();
    assert_eq!(inp.len(), 2 * 28 + 1);
    assert_eq!(inp[4], 0x00);
    assert_eq!(inp[14], 0x00);
}

#[test]
fn jit_backpatches_loop() {
    let code = parse("[-]").jit_compile().unwrap();
    assert_eq!(
        code,
        vec![
            0x48, 0x31, 0xc0, 0x8a, 0x07, 0x48, 0x85, 0xc0, 0x0f, 0x84, 0x11, 0x00, 0x00, 0x00,
            0x80, 0x2f, 0x01,
            0x48, 0x31, 0xc0, 0x8a, 0x07, 0x48, 0x85, 0xc0, 0x0f, 0x85, 0xef, 0xff, 0xff, 0xff,
            0xc3
        ]
    );
}

#[test]
fn jit_empty_program_is_ret() {
    assert_eq!(parse("no operators here").jit_compile().unwrap(), vec![0xc3]);
}

#[test]
fn executable_holds_the_code() {
    let code = parse("+[-]").jit_compile().unwrap();
    let exe = BFExecutable::make_executable(&code).unwrap();
    assert_eq!(&exe.mapping()[..], &code[..]);
}

#[test]
fn straight_line_runs_fold_faithfully() {
    // folded into Add(3), Output(2), Right(2), Sub(1), Output(1)
    let p = parse("+++..>>-.");
    assert_eq!(
        p.instructions().clone(),
        vec![
            Instruction::Add(3),
            Instruction::Output(2),
            Instruction::Right(2),
            Instruction::Sub(1),
            Instruction::Output(1),
        ]
    );
    let r = run(&p, &vec![], FUEL);
    assert_eq!(r.output, vec![3, 3, 0xff]);
    assert_eq!(r.tape[0], 3);
    assert_eq!(r.tape[2], 0xff);
}

#[test]
fn drift_within_tape() {
    assert!(parse("+>>>[<]>").drift_fits(10240));
    assert!(parse(&">".repeat(10239)).drift_fits(10240));
    assert!(!parse(&">".repeat(10240)).drift_fits(10240));
    assert!(!parse("<").drift_fits(10240));
    assert!(!parse("").drift_fits(0));
}
