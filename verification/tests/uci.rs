use ace::uci::commands::{GoCommand, PositionToken, TokenStream};
use ace::uci::error::UCIError;
use ace::uci::{parse_command, Command, UCICommand, UCI};

#[test]
fn uci_command() {
    let mut uci = UCI::new("ace", "Excse");
    let mut output: Vec<String> = Vec::new();

    let result = uci.handle_command("   uci ", &mut output);
    assert!(result.is_ok());

    assert_eq!(output.len(), 3);
    assert_eq!(output[0], "id name ace");
    assert_eq!(output[1], "id author Excse");
    assert_eq!(output[2], "uciok");
}

#[test]
fn debug_command() {
    let mut uci = UCI::new("ace", "Excse");
    assert_eq!(uci.debug, false);

    let mut output: Vec<String> = Vec::new();

    let result = uci.handle_command("   debug ", &mut output);
    assert!(result.is_err());

    let result = uci.handle_command("  debug   toggle   ", &mut output);
    assert!(result.is_err());

    let result = uci.handle_command(" debug   on ", &mut output);
    assert!(result.is_ok());
    assert_eq!(uci.debug, true);

    let result = uci.handle_command("    debug   off  ", &mut output);
    assert!(result.is_ok());
    assert_eq!(uci.debug, false);
}

#[test]
fn isready_command() {
    let mut uci = UCI::new("ace", "Excse");
    assert_eq!(uci.debug, false);

    let mut output: Vec<String> = Vec::new();
    let result = uci.handle_command(" isready  ", &mut output);
    assert!(result.is_ok());

    assert_eq!(output.len(), 1);
    assert_eq!(output[0], "readyok");
}

#[test]
fn quit_command() {
    let mut uci = UCI::new("ace", "Excse");
    assert_eq!(uci.running, true);

    let mut output: Vec<String> = Vec::new();
    let result = uci.handle_command("   quit ", &mut output);
    assert!(result.is_ok());
    assert_eq!(uci.running, false);
}

#[test]
fn uci() {
    let mut uci = UCI::new("ace", "Excse");
    let mut output: Vec<String> = Vec::new();

    let result = uci.receive_command("   uci ", &mut output);
    assert!(matches!(result, Ok(None)));

    assert_eq!(output.len(), 3);
    assert_eq!(output[0], "id name ace");
    assert_eq!(output[1], "id author Excse");
    assert_eq!(output[2], "uciok");
}

#[test]
fn debug() {
    let mut uci = UCI::new("ace", "Excse");
    assert_eq!(uci.debug, false);

    let mut output: Vec<String> = Vec::new();

    let result = uci.receive_command("   debug ", &mut output);
    assert!(result.is_err());

    let result = uci.receive_command("  debug   toggle   ", &mut output);
    assert!(result.is_err());

    let result = uci.receive_command(" debug   on ", &mut output);
    assert!(matches!(result, Ok(None)));
    assert_eq!(uci.debug, true);

    let result = uci.receive_command("    debug   off  ", &mut output);
    assert!(matches!(result, Ok(None)));
    assert_eq!(uci.debug, false);
}

#[test]
fn isready() {
    let mut uci = UCI::new("ace", "Excse");
    assert_eq!(uci.debug, false);

    let mut output: Vec<String> = Vec::new();
    let result = uci.receive_command(" isready  ", &mut output);
    assert!(matches!(result, Ok(Some(Command::IsReady))));

    let result = uci.send_readyok(&mut output);
    assert!(matches!(result, Ok(None)));

    assert_eq!(output.len(), 1);
    assert_eq!(output[0], "readyok");
}

#[test]
fn quit() {
    let mut uci = UCI::new("ace", "Excse");
    let mut output: Vec<String> = Vec::new();
    let result = uci.receive_command("   quit ", &mut output);
    assert!(matches!(result, Ok(Some(Command::Quit))));
}

#[test]
fn debug_lines_when_on() {
    let mut uci = UCI::new("ace", "Excse");
    let mut output: Vec<String> = Vec::new();
    assert!(matches!(uci.receive_command("debug on", &mut output), Ok(None)));
    assert_eq!(output, vec!["info string Command Received: DebugCommand { state: true }".to_string()]);

    output.clear();
    assert!(matches!(uci.receive_command("isready", &mut output), Ok(Some(Command::IsReady))));
    assert_eq!(output, vec!["info string Command Received: isready".to_string()]);
}

#[test]
fn position_startpos_with_moves() {
    let mut uci = UCI::new("ace", "Excse");
    uci.debug = true;
    let mut output: Vec<String> = Vec::new();
    let result = uci.receive_command("position startpos moves e2e4 e7e5\n", &mut output);
    match result {
        Ok(Some(Command::Position(c))) => {
            assert_eq!(c.fen, "rnbqkbnr/pppppppp/8/8/8/8/PPPPPPPP/RNBQKBNR w KQkq - 0 1");
            assert_eq!(c.moves, vec!["e2e4".to_string(), "e7e5".to_string()]);
        },
        _ => panic!("expected a position command"),
    }
    assert_eq!(
        output,
        vec![
            "info string Command Received: PositionCommand { fen: \"rnbqkbnr/pppppppp/8/8/8/8/PPPPPPPP/RNBQKBNR w KQkq - 0 1\", moves: [\"e2e4\", \"e7e5\"] }".to_string()
        ]
    );
}

#[test]
fn position_fen_takes_six_words() {
    let mut uci = UCI::new("ace", "Excse");
    let mut output: Vec<String> = Vec::new();
    let result = uci.receive_command("position fen 8/8/8/8/8/8/8/K6k w - - 0 1 moves a1a2", &mut output);
    match result {
        Ok(Some(Command::Position(c))) => {
            assert_eq!(c.fen, "8/8/8/8/8/8/8/K6k w - - 0 1");
            assert_eq!(c.moves, vec!["a1a2".to_string()]);
        },
        _ => panic!("expected a position command"),
    }
}

#[test]
fn position_errors() {
    let mut uci = UCI::new("ace", "Excse");
    let mut output: Vec<String> = Vec::new();
    match uci.receive_command("position", &mut output) {
        Err(UCIError::NotEnoughArguments(e)) => assert_eq!(e.cmd, "position"),
        _ => panic!("expected a missing argument"),
    }
    match uci.receive_command("position moves e2e4", &mut output) {
        Err(UCIError::InvalidArgument(e)) => assert_eq!(e.argument, "Expected 'fen' or 'startpos'"),
        _ => panic!("expected an invalid argument"),
    }
    match uci.receive_command("position start", &mut output) {
        Err(UCIError::InvalidArgument(e)) => assert_eq!(e.argument, "'start' is not a valid argument"),
        _ => panic!("expected an invalid argument"),
    }
    match uci.receive_command("position startpos bogus", &mut output) {
        Err(UCIError::InvalidArgument(e)) => assert_eq!(e.argument, "'bogus' is not a valid argument"),
        _ => panic!("expected an invalid argument"),
    }
}

#[test]
fn go_arguments() {
    let mut uci = UCI::new("ace", "Excse");
    let mut output: Vec<String> = Vec::new();
    let result = uci.receive_command("go wtime 300 btime 200 depth 7 infinite", &mut output);
    match result {
        Ok(Some(Command::Go(c))) => {
            assert_eq!(c.white_time, Some(300));
            assert_eq!(c.black_time, Some(200));
            assert_eq!(c.depth, Some(7));
            assert!(c.infinite);
            assert!(!c.ponder);
            assert_eq!(c.nodes, None);
        },
        _ => panic!("expected a go command"),
    }
}

#[test]
fn go_debug_text() {
    let mut uci = UCI::new("ace", "Excse");
    uci.debug = true;
    let mut output: Vec<String> = Vec::new();
    let result = uci.receive_command("go movetime 50 searchmoves e2e4", &mut output);
    assert!(matches!(result, Ok(Some(Command::Go(_)))));
    assert_eq!(
        output,
        vec!["info string Command Received: GoCommand { search_moves: [\"e2e4\"], ponder: false, white_time: None, black_time: None, white_increment: None, black_increment: None, moves_to_go: None, depth: None, nodes: None, move_time: Some(50), infinite: false }".to_string()]
    );
}

#[test]
fn go_errors() {
    let mut uci = UCI::new("ace", "Excse");
    let mut output: Vec<String> = Vec::new();
    assert!(matches!(uci.receive_command("go depth", &mut output), Err(UCIError::NotEnoughArguments(_))));
    assert!(matches!(uci.receive_command("go depth 300", &mut output), Err(UCIError::ParseIntError(_))));
    assert!(matches!(uci.receive_command("go nodes x", &mut output), Err(UCIError::ParseIntError(_))));
    assert!(matches!(uci.receive_command("go fast", &mut output), Err(UCIError::InvalidArgument(_))));
}

#[test]
fn go_searchmoves_stops_at_next_argument() {
    let mut uci = UCI::new("ace", "Excse");
    let mut output: Vec<String> = Vec::new();
    match uci.receive_command("go searchmoves e2e4 d2d4 depth 5", &mut output) {
        Ok(Some(Command::Go(c))) => {
            assert_eq!(c.search_moves, vec!["e2e4".to_string(), "d2d4".to_string()]);
            assert_eq!(c.depth, Some(5));
        },
        _ => panic!("expected a go command"),
    }
}

#[test]
fn unknown_and_empty() {
    let mut uci = UCI::new("ace", "Excse");
    let mut output: Vec<String> = Vec::new();
    match uci.receive_command("hello there", &mut output) {
        Err(UCIError::UnknownCommand(e)) => assert_eq!(e.cmd, "hello there"),
        _ => panic!("expected an unknown command"),
    }
    assert!(matches!(uci.receive_command("   ", &mut output), Err(UCIError::NotEnoughArguments(_))));
    assert!(output.is_empty());
    assert!(matches!(uci.receive_command("show", &mut output), Ok(Some(Command::Show))));
    assert!(matches!(uci.receive_command("cache_stats", &mut output), Ok(Some(Command::CacheStats))));
    assert!(matches!(uci.receive_command("ucinewgame", &mut output), Ok(None)));
}

#[test]
fn token_words() {
    assert!(PositionToken::is_token("fen"));
    assert!(PositionToken::is_token("moves"));
    assert!(!PositionToken::is_token("go"));
    let mut tokens = TokenStream::new("depth 3");
    let go = GoCommand::parse("go depth 3", &mut tokens).ok().unwrap();
    assert_eq!(go.depth, Some(3));
}

#[test]
fn set_option_and_parse_command() {
    match parse_command("setoption name Hash Size value 64\n") {
        Ok(UCICommand::SetOption(c)) => {
            assert_eq!(c.name, "Hash Size");
            assert_eq!(c.value, Some("64".to_string()));
        },
        _ => panic!("expected a setoption command"),
    }
    match parse_command("setoption name Ponder") {
        Ok(UCICommand::SetOption(c)) => {
            assert_eq!(c.name, "Ponder");
            assert_eq!(c.value, None);
        },
        _ => panic!("expected a setoption command"),
    }
    match parse_command("setoption value 3") {
        Err(UCIError::InvalidArgument(e)) => assert_eq!(e.argument, "Expected 'name'"),
        _ => panic!("expected an invalid argument"),
    }
    assert!(matches!(parse_command("stop"), Ok(UCICommand::Stop)));
    assert!(matches!(parse_command("analyse"), Ok(UCICommand::Analyse)));
    assert!(matches!(parse_command("uci"), Ok(UCICommand::UCI)));
    assert!(matches!(parse_command("debug on"), Ok(UCICommand::Debug(d)) if d.state));
    assert!(matches!(parse_command("bogus"), Err(UCIError::UnknownCommand(_))));
    assert!(matches!(parse_command(""), Err(UCIError::NotEnoughArguments(_))));
}
