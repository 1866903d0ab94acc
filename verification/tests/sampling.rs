use pl2b::program::Program;

/// A small generator of numbers that depends on nothing but its seed.
struct Numbers(u64);

impl Numbers {
    fn next(&mut self) -> u64 {
        self.0 ^= self.0 << 13;
        self.0 ^= self.0 >> 7;
        self.0 ^= self.0 << 17;
        self.0
    }

    fn below(&mut self, n: usize) -> usize {
        (self.next() % n as u64) as usize
    }
}

fn sample(numbers: &mut Numbers) -> String {
    let alphabet = ['a', 'b', ' ', ' ', '\t', '\r', '\n', '\n', '"', '"', '\\', 'n', '0', '\u{e9}'];
    let len = numbers.below(24);
    (0..len).map(|_| alphabet[numbers.below(alphabet.len())]).collect()
}

type Commands = Vec<(u16, Vec<(String, bool)>)>;

/// The grammar written down a second time, one line at a time as far as it
/// goes: what a source is expected to parse to.
fn expected(source: &str, cap: usize) -> Result<Commands, (u16, u16)> {
    let chars: Vec<char> = source.chars().collect();
    let mut commands = Vec::new();
    let mut tokens: Vec<(String, bool)> = Vec::new();
    let mut line: u16 = 1;
    let mut begun = 0;
    let mut i = 0;
    while i < chars.len() {
        match chars[i] {
            '\n' => {
                if !tokens.is_empty() {
                    commands.push((begun, std::mem::take(&mut tokens)));
                }
                line += 1;
                i += 1;
            }
            ' ' | '\t' | '\r' => i += 1,
            first => {
                if tokens.is_empty() {
                    begun = line;
                }
                if tokens.len() >= cap {
                    return Err((3, begun));
                }
                if first == '"' {
                    let opened = line;
                    let mut text = String::new();
                    i += 1;
                    loop {
                        if i >= chars.len() {
                            return Err((2, opened));
                        }
                        let c = chars[i];
                        i += 1;
                        if c == '"' {
                            break;
                        }
                        let c = if c == '\\' {
                            if i >= chars.len() {
                                return Err((2, opened));
                            }
                            i += 1;
                            chars[i - 1]
                        } else {
                            text.push(c);
                            if c == '\n' {
                                line += 1;
                            }
                            continue;
                        };
                        if c == '\n' {
                            line += 1;
                        }
                        text.push(match c {
                            'n' => '\n',
                            't' => '\t',
                            'r' => '\r',
                            '0' => '\0',
                            other => other,
                        });
                    }
                    tokens.push((text, true));
                } else {
                    let start = i;
                    while i < chars.len() && !matches!(chars[i], ' ' | '\t' | '\r' | '\n') {
                        i += 1;
                    }
                    tokens.push((chars[start..i].iter().collect(), false));
                }
            }
        }
    }
    if !tokens.is_empty() {
        commands.push((begun, tokens));
    }
    Ok(commands)
}

fn found(program: &Program) -> Commands {
    let mut commands = Vec::new();
    let mut cursor = program.first_command();
    while let Some(command) = cursor {
        let tokens = (0..command.size())
            .map(|i| (command.part(i).text().to_string(), command.part(i).is_string()))
            .collect();
        commands.push((command.source_info().line(), tokens));
        cursor = command.next_command();
    }
    commands
}

#[test]
fn sources_parse_as_the_grammar_says() {
    let mut numbers = Numbers(0x9E3779B97F4A7C15);
    let mut passed = 0;
    let mut failed = 0;
    for _ in 0..6000 {
        let source = sample(&mut numbers);
        let cap = numbers.below(5);
        match (Program::parse(&source, cap as u16, 512), expected(&source, cap)) {
            (Ok(program), Ok(commands)) => {
                assert_eq!(found(&program), commands, "source {:?}", source);
                passed += 1;
            }
            (Err(error), Err((code, line))) => {
                assert_eq!(error.error_code(), code, "source {:?}", source);
                assert_eq!(error.source_info().line(), line, "source {:?}", source);
                failed += 1;
            }
            (Ok(_), Err(fault)) => panic!("{:?} parsed, {:?} expected", source, fault),
            (Err(error), Ok(_)) => panic!("{:?} failed: {}", source, error.to_text()),
        }
    }
    assert!(passed > 500);
    assert!(failed > 500);
}

#[test]
fn display_forms_of_sampled_sources_parse_back() {
    let mut numbers = Numbers(0xD1B54A32D192ED03);
    let mut checked = 0;
    for _ in 0..6000 {
        let source = sample(&mut numbers);
        let cap = 1 + numbers.below(6);
        if let Ok(program) = Program::parse(&source, cap as u16, 512) {
            let shown = program.to_text();
            let again = Program::parse(&shown, cap as u16, 512).unwrap();
            let tokens = |p: &Program| found(p).into_iter().map(|(_, t)| t).collect::<Vec<_>>();
            assert_eq!(tokens(&again), tokens(&program), "source {:?}", source);
            let lines: Vec<u16> = found(&again).into_iter().map(|(line, _)| line).collect();
            assert_eq!(lines, (1..=again.len() as u16).collect::<Vec<_>>());
            assert_eq!(again.to_text(), shown);
            checked += 1;
        }
    }
    assert!(checked > 1000);
}

#[test]
fn smaller_limit_fails_at_the_first_command_that_is_too_long() {
    let mut numbers = Numbers(0x2545F4914F6CDD1D);
    let mut checked = 0;
    for _ in 0..6000 {
        let source = sample(&mut numbers);
        let cap = numbers.below(4);
        if let Ok(program) = Program::parse(&source, 64, 512) {
            let commands = found(&program);
            let small = Program::parse(&source, cap as u16, 512);
            match commands.iter().find(|(_, tokens)| tokens.len() > cap) {
                Some((line, _)) => {
                    let error = small.unwrap_err();
                    assert_eq!(error.error_code(), 3);
                    assert_eq!(error.source_info().line(), *line, "source {:?}", source);
                    checked += 1;
                }
                None => assert_eq!(found(&small.unwrap()), commands),
            }
        }
    }
    assert!(checked > 500);
}

#[test]
fn literal_that_is_never_closed_fails_at_its_line() {
    let mut numbers = Numbers(0x94D049BB133111EB);
    let mut checked = 0;
    for _ in 0..6000 {
        let mut before = sample(&mut numbers);
        before.push(['\n', ' ', '\t'][numbers.below(3)]);
        let body: String = sample(&mut numbers).chars().filter(|c| *c != '"').collect();
        if Program::parse(&before, 64, 512).is_err() {
            continue;
        }
        let line = 1 + before.chars().filter(|c| *c == '\n').count() as u16;
        let source = format!("{}\"{}", before, body);
        let error = Program::parse(&source, 64, 512).unwrap_err();
        assert_eq!(error.error_code(), 2, "source {:?}", source);
        assert_eq!(error.source_info().line(), line, "source {:?}", source);
        checked += 1;
    }
    assert!(checked > 1000);
}
