use piet_vm::ast::{Codel, Color, ColorBlock, Hue, Lightness, Program};
use piet_vm::compile::{compile, flood_fill, parse, RawCodel};
use piet_vm::engine::{
    BinaryOp, Command, Cpu, Effect, OutputItem, RunError, RunStatus, UnaryOp,
};
use piet_vm::grid::Grid;
use piet_vm::util::{Direction, Rotation};

fn color(hue: Hue, lightness: Lightness) -> Color {
    Color { hue, lightness }
}

fn raw_grid(width: usize, height: usize, cells: &[RawCodel]) -> Grid<RawCodel> {
    assert_eq!(cells.len(), width * height);
    let mut g: Grid<RawCodel> = Grid::new(width, height, RawCodel::White);
    for y in 0..height {
        for x in 0..width {
            assert!(g.put(x, y, cells[y * width + x]));
        }
    }
    g
}

const RED_N: RawCodel = RawCodel::Color(Color { hue: Hue::Red, lightness: Lightness::Normal });
const RED_L: RawCodel = RawCodel::Color(Color { hue: Hue::Red, lightness: Lightness::Light });
const CYAN_N: RawCodel = RawCodel::Color(Color { hue: Hue::Cyan, lightness: Lightness::Normal });

#[test]
fn find_edge_picks_the_biased_corner() {
    // An L-shaped block:  (0,0) (1,0)
    //                     (0,1)
    let block = ColorBlock {
        color: color(Hue::Red, Lightness::Normal),
        codels: vec![(0, 0), (1, 0), (0, 1)],
    };
    // Facing right, the far edge is x = 1; only (1,0) lies there.
    assert_eq!(block.find_edge(Direction::Right, Rotation::Counter), (1, 0));
    assert_eq!(block.find_edge(Direction::Right, Rotation::Clock), (1, 0));
    // Facing down, the far edge is y = 1.
    assert_eq!(block.find_edge(Direction::Down, Rotation::Clock), (0, 1));
    // Facing left, the edge x = 0 has two members: clockwise from Left is Up,
    // so the bias picks (0,0); counter-clockwise picks (0,1).
    assert_eq!(block.find_edge(Direction::Left, Rotation::Clock), (0, 0));
    assert_eq!(block.find_edge(Direction::Left, Rotation::Counter), (0, 1));
}

#[test]
fn find_edge_ignores_member_order() {
    let a = ColorBlock {
        color: color(Hue::Red, Lightness::Normal),
        codels: vec![(0, 0), (1, 0), (0, 1)],
    };
    let b = ColorBlock {
        color: color(Hue::Red, Lightness::Normal),
        codels: vec![(0, 1), (0, 0), (1, 0)],
    };
    for dp in [Direction::Up, Direction::Right, Direction::Down, Direction::Left] {
        for cc in [Rotation::Counter, Rotation::Clock] {
            assert_eq!(a.find_edge(dp, cc), b.find_edge(dp, cc));
        }
    }
}

#[test]
fn flood_fill_collects_one_region() {
    // red red cyan
    // red cyan cyan
    let g = raw_grid(3, 2, &[RED_N, RED_N, CYAN_N, RED_N, CYAN_N, CYAN_N]);
    let mut region = flood_fill(&g, (0, 0));
    region.sort();
    assert_eq!(region, vec![(0, 0), (0, 1), (1, 0)]);
    let mut other = flood_fill(&g, (2, 1));
    other.sort();
    assert_eq!(other, vec![(1, 1), (2, 0), (2, 1)]);
}

#[test]
fn parse_partitions_regions_into_blocks() {
    // Two regions, no black or white: exactly two blocks covering every
    // coordinate exactly once.
    let g = raw_grid(2, 2, &[RED_N, CYAN_N, RED_N, CYAN_N]);
    let p: Program = parse(&g);
    assert_eq!(p.blocks.len(), 2);
    let mut seen = vec![false; 4];
    for (i, b) in p.blocks.iter().enumerate() {
        for &(x, y) in &b.codels {
            assert_eq!(p.grid.at(x, y), Codel::ColorBlock(i));
            assert!(!seen[y * 2 + x], "coordinate in two blocks");
            seen[y * 2 + x] = true;
        }
    }
    assert!(seen.iter().all(|&s| s));
    assert_eq!(p.blocks[0].color, color(Hue::Red, Lightness::Normal));
    assert_eq!(p.blocks[1].color, color(Hue::Cyan, Lightness::Normal));
}

#[test]
fn parse_marks_black_and_white() {
    let g = raw_grid(2, 1, &[RawCodel::Black, RawCodel::White]);
    let p = parse(&g);
    assert_eq!(p.blocks.len(), 0);
    assert_eq!(p.grid.at(0, 0), Codel::Black);
    assert_eq!(p.grid.at(1, 0), Codel::White);
}

#[test]
fn parse_separates_diagonal_regions() {
    // Diagonal same-color cells are not 4-connected: two blocks.
    let g = raw_grid(2, 2, &[RED_N, CYAN_N, CYAN_N, RED_N]);
    let p = parse(&g);
    assert_eq!(p.blocks.len(), 4);
}

#[test]
fn roll_rotates_the_top_slice() {
    // Stack [1, 2, 3] (3 on top), amount 1, depth 3 -> [3, 1, 2].
    let mut cpu = Cpu::default();
    for v in [1, 2, 3, 3, 1] {
        // operands ...1 2 3, then depth 3, then amount 1
        cpu.provide_input(v);
    }
    let e = cpu.execute_instruction(Command::Binary(BinaryOp::Roll), 0);
    assert_eq!(e, Effect::Silent);
    assert_eq!(cpu.operands().as_slice(), &[3, 1, 2]);
}

#[test]
fn roll_zero_depth_is_noop() {
    let mut cpu = Cpu::default();
    for v in [1, 2, 3, 0, 5] {
        cpu.provide_input(v);
    }
    let e = cpu.execute_instruction(Command::Binary(BinaryOp::Roll), 0);
    assert_eq!(e, Effect::Silent);
    assert_eq!(cpu.operands().as_slice(), &[1, 2, 3]);
}

#[test]
fn roll_whole_turns_is_noop() {
    let mut cpu = Cpu::default();
    for v in [1, 2, 3, 3, -6] {
        cpu.provide_input(v);
    }
    let e = cpu.execute_instruction(Command::Binary(BinaryOp::Roll), 0);
    assert_eq!(e, Effect::Silent);
    assert_eq!(cpu.operands().as_slice(), &[1, 2, 3]);
}

fn binary(stack: &[i64], op: BinaryOp) -> (Vec<i64>, Effect) {
    let mut cpu = Cpu::default();
    for &v in stack {
        cpu.provide_input(v);
    }
    let e = cpu.execute_instruction(Command::Binary(op), 0);
    (cpu.operands().clone(), e)
}

#[test]
fn binary_op_results() {
    assert_eq!(binary(&[5, 3], BinaryOp::Add), (vec![8], Effect::Silent));
    assert_eq!(binary(&[5, 3], BinaryOp::Subtract), (vec![2], Effect::Silent));
    assert_eq!(binary(&[5, 3], BinaryOp::Multiply), (vec![15], Effect::Silent));
    assert_eq!(binary(&[7, 2], BinaryOp::Divide), (vec![3], Effect::Silent));
    assert_eq!(binary(&[-7, 2], BinaryOp::Divide), (vec![-3], Effect::Silent));
    assert_eq!(binary(&[-7, 2], BinaryOp::Mod), (vec![-1], Effect::Silent));
    assert_eq!(binary(&[7, -2], BinaryOp::Mod), (vec![1], Effect::Silent));
    assert_eq!(binary(&[5, 3], BinaryOp::Greater), (vec![1], Effect::Silent));
    assert_eq!(binary(&[3, 5], BinaryOp::Greater), (vec![0], Effect::Silent));
}

#[test]
fn binary_op_underflow_is_noop() {
    assert_eq!(binary(&[], BinaryOp::Add), (vec![], Effect::Silent));
    assert_eq!(binary(&[9], BinaryOp::Add), (vec![9], Effect::Silent));
}

#[test]
fn binary_op_fatal_cases() {
    assert_eq!(
        binary(&[5, 0], BinaryOp::Divide),
        (vec![], Effect::Fatal(RunError::DivideByZero))
    );
    assert_eq!(
        binary(&[5, 0], BinaryOp::Mod),
        (vec![], Effect::Fatal(RunError::DivideByZero))
    );
    assert_eq!(
        binary(&[i64::MAX, 1], BinaryOp::Add),
        (vec![], Effect::Fatal(RunError::Overflow))
    );
    assert_eq!(
        binary(&[i64::MIN, -1], BinaryOp::Divide),
        (vec![], Effect::Fatal(RunError::Overflow))
    );
}

#[test]
fn unary_op_results() {
    let mut cpu = Cpu::default();
    cpu.provide_input(0);
    assert_eq!(cpu.execute_instruction(Command::Unary(UnaryOp::Not), 0), Effect::Silent);
    assert_eq!(cpu.operands().as_slice(), &[1]);
    assert_eq!(cpu.execute_instruction(Command::Unary(UnaryOp::Not), 0), Effect::Silent);
    assert_eq!(cpu.operands().as_slice(), &[0]);
    assert_eq!(
        cpu.execute_instruction(Command::Unary(UnaryOp::Duplicate), 0),
        Effect::Silent
    );
    assert_eq!(cpu.operands().as_slice(), &[0, 0]);
    assert_eq!(cpu.execute_instruction(Command::Unary(UnaryOp::Pop), 0), Effect::Silent);
    assert_eq!(cpu.operands().as_slice(), &[0]);
    assert_eq!(
        cpu.execute_instruction(Command::Unary(UnaryOp::OutNum), 0),
        Effect::OutputNumber(0)
    );
    assert_eq!(cpu.operands().as_slice(), &[] as &[i64]);
    // Underflow: no effect at all.
    assert_eq!(cpu.execute_instruction(Command::Unary(UnaryOp::Not), 0), Effect::Silent);
    assert_eq!(cpu.operands().as_slice(), &[] as &[i64]);
}

#[test]
fn unary_pointer_and_switch() {
    let mut cpu = Cpu::default();
    assert_eq!(cpu.registers().dp, Direction::Right);
    cpu.provide_input(1);
    assert_eq!(cpu.execute_instruction(Command::Unary(UnaryOp::Pointer), 0), Effect::Silent);
    assert_eq!(cpu.registers().dp, Direction::Down);
    cpu.provide_input(-2);
    assert_eq!(cpu.execute_instruction(Command::Unary(UnaryOp::Pointer), 0), Effect::Silent);
    assert_eq!(cpu.registers().dp, Direction::Up);
    assert_eq!(cpu.registers().cc, Rotation::Counter);
    cpu.provide_input(3);
    assert_eq!(cpu.execute_instruction(Command::Unary(UnaryOp::Switch), 0), Effect::Silent);
    assert_eq!(cpu.registers().cc, Rotation::Clock);
    cpu.provide_input(2);
    assert_eq!(cpu.execute_instruction(Command::Unary(UnaryOp::Switch), 0), Effect::Silent);
    assert_eq!(cpu.registers().cc, Rotation::Clock);
}

#[test]
fn unary_out_char_checks_code_points() {
    let mut cpu = Cpu::default();
    cpu.provide_input(65);
    assert_eq!(
        cpu.execute_instruction(Command::Unary(UnaryOp::OutChar), 0),
        Effect::OutputChar(65)
    );
    cpu.provide_input(0xD800);
    assert_eq!(
        cpu.execute_instruction(Command::Unary(UnaryOp::OutChar), 0),
        Effect::Fatal(RunError::BadCodePoint)
    );
    cpu.provide_input(-1);
    assert_eq!(
        cpu.execute_instruction(Command::Unary(UnaryOp::OutChar), 0),
        Effect::Fatal(RunError::BadCodePoint)
    );
}

#[test]
fn lone_block_halts_with_empty_stack() {
    // A 1x1 colored block: every probe leaves the grid, the register state
    // repeats after the eight recovery attempts, and the run halts cleanly.
    let g = raw_grid(1, 1, &[RED_N]);
    let p = parse(&g);
    let mut cpu = Cpu::default();
    let (outputs, status) = cpu.run(&p, &vec![], 100);
    assert_eq!(status, RunStatus::Halted);
    assert_eq!(outputs, vec![]);
    assert_eq!(cpu.operands().as_slice(), &[] as &[i64]);
}

#[test]
fn greater_on_empty_stack_is_noop() {
    // red/normal then cyan/normal: hue delta 3, lightness delta 0 = Greater,
    // executed with an empty stack, leaving it empty. Two adjacent blocks
    // bounce the cursor back and forth forever, so the run is bounded.
    let g = raw_grid(2, 1, &[RED_N, CYAN_N]);
    let p = parse(&g);
    let mut cpu = Cpu::default();
    let (outputs, status) = cpu.run(&p, &vec![], 1000);
    assert_eq!(status, RunStatus::OutOfSteps);
    assert_eq!(outputs, vec![]);
    assert_eq!(cpu.operands().as_slice(), &[] as &[i64]);
}

#[test]
fn area_five_block_outputs_five() {
    // Five light-red codels push their area (hue delta 0, lightness delta 1),
    // and the next transition (hue delta 5, lightness delta 1) outputs it.
    let red_n = RED_N;
    let magenta_d =
        RawCodel::Color(Color { hue: Hue::Magenta, lightness: Lightness::Dark });
    let g = raw_grid(7, 1, &[RED_L, RED_L, RED_L, RED_L, RED_L, red_n, magenta_d]);
    let p = parse(&g);
    // The cursor oscillates along the tape forever, so step until the first
    // output effect: it must be the area of the pushing block, with nothing
    // emitted before it.
    let mut cpu = Cpu::default();
    let mut first_output = None;
    for _ in 0..100 {
        match cpu.step(&p) {
            None => break,
            Some(Effect::OutputNumber(n)) => {
                first_output = Some(n);
                break;
            }
            Some(Effect::OutputChar(_)) => panic!("unexpected character output"),
            Some(Effect::Fatal(e)) => panic!("unexpected fatal condition: {e:?}"),
            Some(_) => {}
        }
    }
    assert_eq!(first_output, Some(5));
    // The same program through the bounded runner: the first oscillation
    // executes Push, OutputNumber, Multiply, Pop, and only the one number
    // reaches the output stream.
    let mut bounded = Cpu::default();
    let (outputs, status) = bounded.run(&p, &vec![], 4);
    assert_eq!(status, RunStatus::OutOfSteps);
    assert_eq!(outputs, vec![OutputItem::Number(5)]);
}

#[test]
fn input_number_reads_the_queue() {
    // red/light then blue/dark: hue delta 4, lightness delta 2 = InputNumber.
    let blue_d = RawCodel::Color(Color { hue: Hue::Blue, lightness: Lightness::Dark });
    let g = raw_grid(2, 1, &[RED_L, blue_d]);
    let p = parse(&g);
    // One number is read and pushed; the oscillating cursor asks again and
    // the exhausted queue is fatal, with the first read still on the stack.
    let mut cpu = Cpu::default();
    let (_, status) = cpu.run(&p, &vec![7], 1000);
    assert_eq!(status, RunStatus::Fatal(RunError::OutOfInput));
    assert_eq!(cpu.operands().as_slice(), &[7]);

    let mut starved = Cpu::default();
    let (_, status) = starved.run(&p, &vec![], 1000);
    assert_eq!(status, RunStatus::Fatal(RunError::OutOfInput));
    assert_eq!(starved.operands().as_slice(), &[] as &[i64]);
}

#[test]
fn compile_decodes_an_encoded_image() {
    // Encode a 2x1 image (red then cyan) as PNG bytes, then compile it.
    let mut img = image::RgbImage::new(2, 1);
    img.put_pixel(0, 0, image::Rgb([255, 0, 0]));
    img.put_pixel(1, 0, image::Rgb([0, 255, 255]));
    let mut bytes: Vec<u8> = Vec::new();
    img.write_to(
        &mut std::io::Cursor::new(&mut bytes),
        image::ImageFormat::Png,
    )
    .unwrap();

    let p = compile(&bytes, 1).expect("a decodable two-codel image");
    assert_eq!(p.grid.size(), (2, 1));
    assert_eq!(p.blocks.len(), 2);
    assert_eq!(p.blocks[0].color, color(Hue::Red, Lightness::Normal));
    assert_eq!(p.blocks[1].color, color(Hue::Cyan, Lightness::Normal));
    assert!(compile(&[1, 2, 3], 1).is_none());
}
