use submarine::bingo;
use submarine::bingo::Cell;
use submarine::bingo::Drawn;
use submarine::caves;
use submarine::caves::Cave;
use submarine::caves::CaveParseError;
use submarine::caves::Graph;
use submarine::caves::NodeIndex;
use submarine::crabs;
use submarine::diagnostic;
use submarine::diagnostic::Criterion;
use submarine::dive;
use submarine::dive::Command;
use submarine::lanternfish;
use submarine::lanternfish::LanternFish;
use submarine::lanternfish::Spawns;
use submarine::origami;
use submarine::origami::FoldInstruction;
use submarine::parse;
use submarine::paths::parse_command;
use submarine::paths::CommandKind as PathCommandKind;
use submarine::paths::ArgPath;
use submarine::paths::ArgPathFragment;
use submarine::paths::CommandError;
use submarine::paths::ParsePathError;
use submarine::segments::Digit;
use submarine::segments::Segment;
use submarine::segments::SegmentsError;
use submarine::sonar;
use submarine::sorting;
use submarine::syntax;
use submarine::syntax::SyntaxError;
use submarine::syntax::Token;
use submarine::vents;
use submarine::vents::Line;
use submarine::vents::Point;

fn lines(v: &[&str]) -> Vec<String> {
    v.iter().map(|s| s.to_string()).collect()
}

#[test]
fn split_bytes_keeps_empty_pieces() {
    let parts = parse::split_bytes(b"a,b,,c", b',');
    let views: Vec<&[u8]> = parts.iter().map(|p| p.as_slice()).collect();
    assert_eq!(views, vec![b"a" as &[u8], b"b", b"", b"c"]);
    assert_eq!(parse::split_bytes(b"", b',').len(), 1);
}

#[test]
fn parse_u64_reads_digits_and_rejects_the_rest() {
    assert_eq!(parse::parse_u64(b"123"), Some(123));
    assert_eq!(parse::parse_u64(b"0"), Some(0));
    assert_eq!(parse::parse_u64(b""), None);
    assert_eq!(parse::parse_u64(b"12a"), None);
    assert_eq!(parse::parse_u64(b"18446744073709551615"), Some(u64::MAX));
    assert_eq!(parse::parse_u64(b"18446744073709551616"), None);
}

#[test]
fn sonar_counts_increases() {
    let depths = vec![199u64, 200, 208, 210, 200, 207, 240, 269, 260, 263];
    assert_eq!(sonar::solve(&depths), 7);
    let windows = sonar::sum_windows(&depths);
    assert_eq!(sonar::solve(&windows), 5);
}

#[test]
fn sonar_parses_depth_lines() {
    let parsed = sonar::parse_depths(&lines(&["199", "200", "208"])).unwrap();
    assert_eq!(parsed, vec![199, 200, 208]);
    assert!(sonar::parse_depths(&lines(&["199", "x"])).is_none());
}

#[test]
fn dive_parses_commands() {
    assert_eq!(dive::parse_command(b"forward 5"), Ok(Command::Forward(5)));
    assert_eq!(dive::parse_command(b"Down 3"), Ok(Command::Down(3)));
    assert_eq!(dive::parse_command(b"up 1"), Ok(Command::Up(1)));
    assert_eq!(
        dive::parse_command(b"left 2"),
        Err(dive::ParseCommandError::Unknown)
    );
    assert_eq!(
        dive::parse_command(b"forward"),
        Err(dive::ParseCommandError::MissingArgument)
    );
    assert_eq!(
        dive::parse_command(b"forward x"),
        Err(dive::ParseCommandError::ArgumentParseError)
    );
}

#[test]
fn dive_runs_both_readings() {
    let cmds = dive::parse_commands(&lines(&[
        "forward 5", "down 5", "forward 8", "up 3", "down 8", "forward 2",
    ]))
    .unwrap();
    assert_eq!(dive::solve_basic(&cmds), Some(150));
    assert_eq!(dive::solve_aiming(&cmds), Some(900));
}

#[test]
fn diagnostic_power_consumption() {
    let raw = [
        "00100", "11110", "10110", "10111", "10101", "01111", "00111", "11100", "10000", "11001",
        "00010", "01010",
    ];
    let reports: Vec<u32> = raw
        .iter()
        .map(|r| diagnostic::parse_bin_u32(r.as_bytes()).unwrap())
        .collect();
    let size = diagnostic::get_size(&reports).unwrap();
    assert_eq!(size, 5);
    assert_eq!(diagnostic::power_consumption(&reports, size), 198);
}

#[test]
fn diagnostic_life_support_ratings() {
    let raw = [
        "00100", "11110", "10110", "10111", "10101", "01111", "00111", "11100", "10000", "11001",
        "00010", "01010",
    ];
    let reports: Vec<u32> = raw
        .iter()
        .map(|r| diagnostic::parse_bin_u32(r.as_bytes()).unwrap())
        .collect();
    let size = diagnostic::get_size(&reports).unwrap();
    let oxygen = diagnostic::rating(&reports, 0, size, Criterion::MostCommon).unwrap();
    let co2 = diagnostic::rating(&reports, 0, size, Criterion::LeastCommon).unwrap();
    assert_eq!(oxygen, 23);
    assert_eq!(co2, 10);
    assert_eq!(oxygen as u64 * co2 as u64, 230);
}

#[test]
fn diagnostic_rejects_bad_binary() {
    assert_eq!(diagnostic::parse_bin_u32(b"10102"), None);
    assert_eq!(diagnostic::parse_bin_u32(b""), None);
    assert_eq!(diagnostic::parse_bin_u32(b"101"), Some(5));
}

#[test]
fn crabs_align_at_linear_and_triangular_cost() {
    let positions = vec![16u64, 1, 2, 0, 4, 2, 7, 1, 2, 14];
    assert_eq!(crabs::solve_part1(&positions), 37);
    assert_eq!(crabs::solve_part2(&positions), 168);
}

#[test]
fn sorting_orders_values() {
    let mut v = vec![5u64, 3, 9, 1, 3];
    sorting::sort_u64(&mut v);
    assert_eq!(v, vec![1, 3, 3, 5, 9]);
}

#[test]
fn bingo_cells_mark_once() {
    let mut c = Cell::Unmarked(7);
    assert_eq!(c.value(), 7);
    assert!(!c.is_marked());
    assert!(c.mark());
    assert!(c.is_marked());
    assert!(!c.mark());
    assert_eq!(c.value(), 7);
}

#[test]
fn bingo_board_wins_with_score() {
    let row1 = bingo::parse_row(b" 1  2").unwrap();
    let row2 = bingo::parse_row(b" 3  4").unwrap();
    let mut cells = row1;
    cells.extend(row2);
    let board = bingo::board_from_cells(cells, 2).unwrap();
    let board = match board.draw(1) {
        Drawn::Again(b) => b,
        Drawn::Won(_) => panic!("one mark cannot win"),
    };
    match board.draw(2) {
        Drawn::Again(_) => panic!("a full line should win"),
        Drawn::Won(w) => assert_eq!(w.score(), 7),
    }
}

#[test]
fn bingo_parse_row_rejects_bad_cells() {
    assert!(bingo::parse_row(b"1 x 3").is_none());
    assert_eq!(bingo::parse_row(b"").unwrap().len(), 0);
}

#[test]
fn syntax_scores_corrupted_lines() {
    let raw = [
        "[({(<(())[]>[[{[]{<()<>>",
        "[(()[<>])]({[<{<<[]>>(",
        "{([(<{}[<>[]}>{[]{[(<()>",
        "(((({<>}<{<{<>}{[]{[]{}",
        "[[<[([]))<([[{}[[()]]]",
        "[{[{({}]{}}([{[{{{}}([]",
        "{<[[]]>}<{[{[{[]{()[[[]",
        "[<(<(<(<{}))><([]([]()",
        "<{([([[(<>()){}]>(<<{{",
        "<{([{{}}[<[[[<>{}]]]>[]]",
    ];
    let byte_lines: Vec<Vec<u8>> = raw.iter().map(|l| l.as_bytes().to_vec()).collect();
    assert_eq!(syntax::corruption_score(&byte_lines), Some(26397));
    assert_eq!(syntax::middle_completion_score(&byte_lines), Some(288957));
}

#[test]
fn syntax_walks_single_lines() {
    assert_eq!(syntax::walk_line(b"()").unwrap().len(), 0);
    assert_eq!(syntax::walk_line(b"(<").unwrap().len(), 2);
    match syntax::walk_line(b"(]") {
        Err(SyntaxError::InvalidClosing { got, expected }) => {
            assert_eq!(got, Token::ClosingSquareBracket);
            assert_eq!(expected, Token::ClosingParenthesis);
        }
        other => panic!("expected a closing mismatch, got {:?}", other),
    }
    match syntax::walk_line(b"(a)") {
        Err(SyntaxError::InvalidToken(b)) => assert_eq!(b, b'a'),
        other => panic!("expected an invalid token, got {:?}", other),
    }
}

#[test]
fn origami_folds_the_example_sheet() {
    let coords = [
        (6u64, 10u64),
        (0, 14),
        (9, 10),
        (0, 3),
        (10, 4),
        (4, 11),
        (6, 0),
        (6, 12),
        (4, 1),
        (0, 13),
        (10, 12),
        (3, 4),
        (3, 0),
        (8, 4),
        (1, 10),
        (2, 14),
        (8, 10),
        (9, 0),
    ];
    let mut grid = origami::Grid::with_capacity(11, 15);
    for (x, y) in coords {
        assert!(grid.add(x as usize, y as usize).is_some());
    }
    let folded = grid.apply(FoldInstruction::Y(7));
    assert_eq!(folded.count_dots(), 17);
    let folded = folded.apply(FoldInstruction::X(5));
    assert_eq!(folded.count_dots(), 16);
}

#[test]
fn origami_parses_fold_instructions() {
    assert_eq!(
        origami::parse_fold_instruction(b"fold along y=7"),
        Some(FoldInstruction::Y(7))
    );
    assert_eq!(
        origami::parse_fold_instruction(b"fold along x=655"),
        Some(FoldInstruction::X(655))
    );
    assert_eq!(origami::parse_fold_instruction(b"fold along z=1"), None);
    assert_eq!(origami::parse_fold_instruction(b"bend along x=1"), None);
    assert_eq!(origami::parse_fold_instruction(b"fold along x="), None);
}

#[test]
fn lanternfish_single_fish_cycle() {
    let mut fish = LanternFish::with_timer(0);
    let spawned = fish.spawn();
    assert!(spawned.is_some());
    let mut fish = LanternFish::with_timer(3);
    assert!(fish.spawn().is_none());
}

#[test]
fn lanternfish_population_grows() {
    let timers = vec![3u64, 4, 3, 1, 2];
    assert_eq!(lanternfish::solve_v1(&timers, 18), 26);
    assert_eq!(lanternfish::solve_v1(&timers, 80), 5934);
}

#[test]
fn lanternfish_chunks_merge_and_spawn() {
    let mut a = Spawns::new();
    assert!(a.add(8).is_some());
    assert!(a.add(8).is_some());
    let mut school = a.into_fish();
    assert_eq!(school.count(), 2);
    // Timers 8,8 tick down without spawning.
    assert!(school.spawn().is_none());
    let mut zero = lanternfish::BinaryLanternFish::from(&[0, 5]);
    let spawned = zero.spawn().unwrap();
    assert_eq!(spawned.into_fish().count(), 1);
}

#[test]
fn vents_parse_and_overlaps() {
    assert_eq!(
        vents::parse_line(b"0,9 -> 5,9"),
        Some(Line {
            start: Point { x: 0, y: 9 },
            end: Point { x: 5, y: 9 }
        })
    );
    assert_eq!(vents::parse_line(b"0,9 => 5,9"), None);
    assert_eq!(vents::parse_line(b"0;9 -> 5,9"), None);

    let raw = [
        "0,9 -> 5,9",
        "8,0 -> 0,8",
        "9,4 -> 3,4",
        "2,2 -> 2,1",
        "7,0 -> 7,4",
        "6,4 -> 2,0",
        "0,9 -> 2,9",
        "3,4 -> 1,4",
        "0,0 -> 8,8",
        "5,5 -> 8,2",
    ];
    let vent_lines: Vec<Line> = raw
        .iter()
        .map(|l| vents::parse_line(l.as_bytes()).unwrap())
        .collect();
    assert_eq!(vents::solve(&vent_lines, false), 5);
    assert_eq!(vents::solve(&vent_lines, true), 12);
}

#[test]
fn caves_parse_names() {
    assert!(matches!(caves::parse_cave(b"start"), Ok(Cave::Entry)));
    assert!(matches!(caves::parse_cave(b"end"), Ok(Cave::Exit)));
    assert!(matches!(caves::parse_cave(b"A"), Ok(Cave::Big(_))));
    assert!(matches!(caves::parse_cave(b"dc"), Ok(Cave::Small(_))));
    assert!(matches!(caves::parse_cave(b""), Err(CaveParseError::Empty)));
    assert!(matches!(
        caves::parse_cave(b"a1"),
        Err(CaveParseError::Invalid)
    ));
}

#[test]
fn caves_graph_links_nodes() {
    let mut g = Graph::new();
    let a = g.add_node(Cave::Entry);
    let b = g.add_node(Cave::Exit);
    assert_eq!(a, NodeIndex(0));
    assert_eq!(b, NodeIndex(1));
    assert!(g.add_edge(a, b).is_some());
    assert!(g.add_edge(b, a).is_some());
    assert!(g.add_edge(a, NodeIndex(5)).is_none());
    assert_eq!(g.find_node(&Cave::Exit), Some(b));
    assert!(g.find_node(&Cave::Small(b"xy".to_vec())).is_none());
}

#[test]
fn bingo_play_reports_scores_in_win_order() {
    // Two one-cell boards: the first wins on the first draw, the second on
    // the second.
    let b1 = bingo::board_from_cells(bingo::parse_row(b"5").unwrap(), 1).unwrap();
    let b2 = bingo::board_from_cells(bingo::parse_row(b"9").unwrap(), 1).unwrap();
    let scores = bingo::play(&vec![5, 9], vec![b1, b2]).unwrap();
    // A won single-cell board has no unmarked numbers left, so both scores
    // are zero.
    assert_eq!(scores, vec![0, 0]);

    let b3 = bingo::board_from_cells(
        {
            let mut cells = bingo::parse_row(b"1 2").unwrap();
            cells.extend(bingo::parse_row(b"3 4").unwrap());
            cells
        },
        2,
    )
    .unwrap();
    let scores = bingo::play(&vec![1, 2], vec![b3]).unwrap();
    // Unmarked 3 and 4 remain, times the winning draw 2.
    assert_eq!(scores, vec![14]);
}

#[test]
fn basins_risk_level_of_example() {
    let raw = [
        "2199943210",
        "3987894921",
        "9856789892",
        "8767896789",
        "9899965678",
    ];
    let byte_lines: Vec<Vec<u8>> = raw.iter().map(|l| l.as_bytes().to_vec()).collect();
    let map = submarine::basins::parse_heightmap(&byte_lines).unwrap();
    assert_eq!(submarine::basins::risk_level(&map), Some(15));
    assert!(map.is_low(0, 1));
    assert!(!map.is_low(0, 0));
    assert_eq!(map.position_at(1, 0), 3);
}

#[test]
fn basins_parse_rejects_ragged_and_bad_maps() {
    assert!(submarine::basins::parse_heightmap(&vec![b"12".to_vec(), b"345".to_vec()]).is_none());
    assert!(submarine::basins::parse_heightmap(&vec![b"1x".to_vec()]).is_none());
    assert!(submarine::basins::parse_heightmap(&vec![]).is_none());
}

#[test]
fn segments_counts_unique_output_digits() {
    let raw = [
        "be cfbegad cbdgef fgaecd cgeb fdcge agebfd fecdb fabcd edb | fdgacbe cefdb cefbgd gcbe",
        "edbfga begcd cbg gc gcadebf fbgde acbgfd abcde gfcbed gfec | fcgedb cgb dgebacf gc",
        "fgaebd cg bdaec gdafb agbcfd gdcbef bgcad gfac gcb cdgabef | cg cg fdcagb cbg",
        "fbegcd cbd adcefb dageb afcb bc aefdc ecdab fgdeca fcdbega | efabcd cedba gadfec cb",
        "aecbfdg fbg gf bafeg dbefa fcge gcbea fcaegb dgceab fcbdga | gecf egdcabf bgf bfgea",
        "fgeab ca afcebg bdacfeg cfaedg gcfdb baec bfadeg bafgc acf | gebdcfa ecba ca fadegcb",
        "dbcfg fgd bdegcaf fgec aegbdf ecdfab fbedc dacgb gdcebf gf | cefg dcbef fcge gbcadfe",
        "bdfegc cbegaf gecbf dfcage bdacg ed bedf ced adcbefg gebcd | ed bcgafe cdgba cbgef",
        "egadfb cdbfeg cegd fecab cgb gbdefca cg fgcdab egfdb bfceg | gbdfcae bgc cg cgb",
        "gcafb gcf dcaebfg ecagb gf abcdeg gaef cafbge fdbac fegbdc | fgae cfgab fg bagce",
    ];
    let mut entries = Vec::new();
    for line in raw {
        entries.push(submarine::segments::Entry::parse(line.as_bytes()).unwrap());
    }
    assert_eq!(submarine::segments::count_unique_outputs(&entries), Some(26));
}

#[test]
fn segments_digit_classification() {
    let one = Digit::parse(b"ab").unwrap();
    assert_eq!(one.value, Some(1));
    assert!(one.is_unique());
    let ambiguous = Digit::parse(b"abcde").unwrap();
    assert_eq!(ambiguous.value, None);
    assert!(!ambiguous.is_unique());
    assert!(matches!(
        Digit::parse(b"a"),
        Err(SegmentsError::InvalidWiring)
    ));
    assert!(matches!(
        Digit::parse(b"xy"),
        Err(SegmentsError::InvalidSegment(b'x'))
    ));
    let four = Digit::parse(b"bcdf").unwrap();
    let common = one.common_segments(&four);
    assert_eq!(common, vec![Segment::B]);
}

#[test]
fn paths_fragments_and_disjoint() {
    let f = ArgPathFragment::parse(b"day16").unwrap();
    assert_eq!(f.prefix, b"day".to_vec());
    assert_eq!(f.index, Some(16));
    let f = ArgPathFragment::parse(b"test").unwrap();
    assert_eq!(f.index, None);
    assert!(matches!(
        ArgPathFragment::parse(b""),
        Err(ParsePathError::Empty)
    ));
    assert!(matches!(
        ArgPathFragment::parse(b"day9x"),
        Err(ParsePathError::InvalidIndex)
    ));

    let a = ArgPath::parse(b"day16/1").unwrap();
    let b = ArgPath::parse(b"day16").unwrap();
    assert_eq!(a.fragments.len(), 2);
    // `day16/1` runs past `day16` at its second fragment.
    assert_eq!(a.disjoint(&b), Some(1));
    assert_eq!(b.disjoint(&a), None);
}

#[test]
fn paths_commands() {
    let args = vec![b"solve".to_vec(), b"day16".to_vec()];
    let (kind, path) = parse_command(&args).unwrap();
    assert_eq!(kind, PathCommandKind::Solve);
    assert_eq!(path.fragments.len(), 1);
    let args = vec![b"TEST".to_vec(), b"day2/1".to_vec()];
    let (kind, _) = parse_command(&args).unwrap();
    assert_eq!(kind, PathCommandKind::Test);
    assert!(matches!(
        parse_command(&vec![]),
        Err(CommandError::MissingCommand)
    ));
    assert!(matches!(
        parse_command(&vec![b"frobnicate".to_vec()]),
        Err(CommandError::InvalidCommand)
    ));
    assert!(matches!(
        parse_command(&vec![b"solve".to_vec()]),
        Err(CommandError::MissingPath)
    ));
}

#[test]
fn origami_parses_a_whole_sheet() {
    let raw = ["0,0", "2,0", "", "fold along x=1"];
    let byte_lines: Vec<Vec<u8>> = raw.iter().map(|l| l.as_bytes().to_vec()).collect();
    let (grid, instructions) = origami::parse_sheet(&byte_lines).unwrap();
    assert_eq!(instructions, vec![FoldInstruction::X(1)]);
    assert_eq!(grid.count_dots(), 2);
    // The two dots fold onto one another.
    assert_eq!(grid.apply(instructions[0]).count_dots(), 1);

    let bad = vec![b"0,0,0".to_vec()];
    assert!(origami::parse_sheet(&bad).is_none());
}

#[test]
fn octopus_grid_flashes_cascade() {
    let raw = [
        "5483143223",
        "2745854711",
        "5264556173",
        "6141336146",
        "6357385478",
        "4167524645",
        "2176841721",
        "6882881134",
        "4846848554",
        "5283751526",
    ];
    let byte_lines: Vec<Vec<u8>> = raw.iter().map(|l| l.as_bytes().to_vec()).collect();
    let mut grid = submarine::octopus::parse_grid(&byte_lines).unwrap();
    let mut total = 0usize;
    let mut all_flash_step = None;
    for step in 1..=200 {
        let flashes = grid.run_step();
        if step <= 100 {
            total += flashes;
        }
        if all_flash_step.is_none() && flashes == grid.len() {
            all_flash_step = Some(step);
        }
    }
    assert_eq!(total, 1656);
    assert_eq!(all_flash_step, Some(195));
}

#[test]
fn octopus_single_cell_steps() {
    let mut o = submarine::octopus::Octopus::Ready(9);
    assert!(o.increase());
    assert!(o.flashed());
    assert!(!o.increase());
    o.reset();
    assert!(!o.flashed());
    assert_eq!(o, submarine::octopus::Octopus::Ready(0));
}

#[test]
fn polymer_grows_by_pair_insertion() {
    let rules_raw = [
        "CH -> B", "HH -> N", "CB -> H", "NH -> C", "HB -> C", "HC -> B", "HN -> C", "NN -> C",
        "BH -> H", "NC -> B", "NB -> B", "BN -> B", "BB -> N", "BC -> B", "CC -> N", "CN -> C",
    ];
    let mut rules = submarine::polymer::Rules::new();
    for line in rules_raw {
        let (a, b, c) = submarine::polymer::parse_rule(line.as_bytes()).unwrap();
        rules.add(a, b, c);
    }
    let mut counts = submarine::polymer::PairCounts::from_template(b"NNCB").unwrap();
    for _ in 0..10 {
        counts = counts.step(&rules).unwrap();
    }
    let occ = counts.first_char_counts().unwrap();
    assert_eq!(submarine::polymer::spread(&occ), Some(1588));
}

#[test]
fn polymer_rule_lines_parse() {
    assert_eq!(
        submarine::polymer::parse_rule(b"CH -> B"),
        Some((b'C', b'H', b'B'))
    );
    assert_eq!(submarine::polymer::parse_rule(b"CH => B"), None);
    assert_eq!(submarine::polymer::parse_rule(b"CHX -> B"), None);
}

#[test]
fn origami_renders_dots() {
    let mut grid = origami::Grid::with_capacity(2, 2);
    grid.add(0, 0).unwrap();
    grid.add(1, 1).unwrap();
    assert_eq!(grid.render(), b"#.\n.#\n".to_vec());
}

#[test]
fn caves_system_parses_connections() {
    let raw = ["start-A", "start-b", "A-c", "A-b", "b-d", "A-end", "b-end"];
    let byte_lines: Vec<Vec<u8>> = raw.iter().map(|l| l.as_bytes().to_vec()).collect();
    let system = caves::CaveSystem::parse(&byte_lines).unwrap();
    // Six distinct caves, and two directed edges per connection.
    assert_eq!(system.graph.nodes.len(), 6);
    assert_eq!(system.graph.edges.len(), 14);
    assert_eq!(system.graph.find_node(&Cave::Entry), Some(system.entry));
    assert_eq!(system.graph.find_node(&Cave::Exit), Some(system.exit));
    assert!(matches!(
        caves::CaveSystem::parse(&vec![b"a-b".to_vec()]),
        Err(caves::CaveSystemError::MissingEntry)
    ));
    assert!(matches!(
        caves::CaveSystem::parse(&vec![b"start".to_vec()]),
        Err(caves::CaveSystemError::InvalidConnection)
    ));
}

#[test]
fn caves_find_paths_counts_routes() {
    let raw = ["start-A", "start-b", "A-c", "A-b", "b-d", "A-end", "b-end"];
    let byte_lines: Vec<Vec<u8>> = raw.iter().map(|l| l.as_bytes().to_vec()).collect();
    let system = caves::CaveSystem::parse(&byte_lines).unwrap();
    let once = system
        .find_paths(caves::VisitRule::SmallOnce, 1_000_000)
        .unwrap();
    assert_eq!(once.len(), 10);
    let twice = system
        .find_paths(caves::VisitRule::OneSmallTwice, 1_000_000)
        .unwrap();
    assert_eq!(twice.len(), 36);
    // Every reported path runs from the entry to the exit.
    for path in &twice {
        assert_eq!(path.first(), Some(&system.entry.0));
        assert_eq!(path.last(), Some(&system.exit.0));
    }
    // A tiny budget makes the search give up rather than loop.
    assert!(system.find_paths(caves::VisitRule::SmallOnce, 3).is_none());
}
