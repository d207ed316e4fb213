pub mod commands;
pub mod error;

use vstd::prelude::*;

use crate::generation::mov::Move;
use crate::generation::parse::move_text;
use crate::text::{
    chars_are, chars_to_string, debug_text, decimal, push_chars, push_decimal, push_str,
    quote_debug, str_to_chars, string_views, words,
};

use self::commands::{
    debug_token_outcome, go_command_outcome, position_command_outcome, set_option_command_outcome,
    DebugCommand, GoCommand, GoCommandView, Parsed, PositionCommand, PositionCommandView,
    SetOptionCommand, TokenStream,
};
use self::error::{is_invalid, is_not_enough, is_unknown, InvalidArgument, NotEnoughArguments, UCIError, UnknownCommand};

verus! {

/// A command that the engine has to act on.
pub enum Command {
    Position(PositionCommand),
    IsReady,
    Go(GoCommand),
    Quit,
    Show,
    CacheStats,
}

/// The model of a command.
pub ghost enum CommandView {
    Position(PositionCommandView),
    IsReady,
    Go(GoCommandView),
    Quit,
    Show,
    CacheStats,
}

impl View for Command {
    type V = CommandView;

    open spec fn view(&self) -> CommandView {
        match self {
            Command::Position(c) => CommandView::Position(c@),
            Command::IsReady => CommandView::IsReady,
            Command::Go(c) => CommandView::Go(c@),
            Command::Quit => CommandView::Quit,
            Command::Show => CommandView::Show,
            Command::CacheStats => CommandView::CacheStats,
        }
    }
}

/// `e` is the error that the failed outcome `o` stands for, on the command line `cmd`.
pub open spec fn error_holds<M>(e: UCIError, o: Parsed<M>, cmd: Seq<char>) -> bool {
    match o {
        Parsed::Done(_, _) => false,
        Parsed::NotEnough => is_not_enough(e, cmd),
        Parsed::Invalid(a) => is_invalid(e, a),
        Parsed::BadNumber => e is ParseIntError,
    }
}

/// The debug line for `msg`, if debug output is on.
pub open spec fn info(debug: bool, msg: Seq<char>) -> Seq<Seq<char>> {
    if debug {
        seq!["info string "@ + msg]
    } else {
        seq![]
    }
}

/// The lines that identify the engine.
pub open spec fn id_lines(name: Seq<char>, author: Seq<char>) -> Seq<Seq<char>> {
    seq!["id name "@ + name, "id author "@ + author]
}

/// The text of a boolean.
pub open spec fn bool_text(b: bool) -> Seq<char> {
    if b {
        "true"@
    } else {
        "false"@
    }
}

/// The debug text of an optional number.
pub open spec fn option_text(o: Option<nat>) -> Seq<char> {
    match o {
        Some(n) => "Some("@ + decimal(n) + ")"@,
        None => "None"@,
    }
}

/// The debug texts of strings, separated by commas.
pub open spec fn list_items(w: Seq<Seq<char>>) -> Seq<char>
    decreases w.len(),
{
    if w.len() == 0 {
        seq![]
    } else if w.len() == 1 {
        debug_text(w[0])
    } else {
        list_items(w.drop_last()) + ", "@ + debug_text(w.last())
    }
}

/// The debug text of a list of strings.
pub open spec fn list_text(w: Seq<Seq<char>>) -> Seq<char> {
    "["@ + list_items(w) + "]"@
}

/// The debug text of a `debug` command.
pub open spec fn debug_command_text(state: bool) -> Seq<char> {
    "DebugCommand { state: "@ + bool_text(state) + " }"@
}

/// The debug text of a `position` command.
pub open spec fn position_command_text(c: PositionCommandView) -> Seq<char> {
    "PositionCommand { fen: "@ + debug_text(c.fen) + ", moves: "@ + list_text(c.moves) + " }"@
}

/// The debug text of a `go` command.
pub open spec fn go_command_text(c: GoCommandView) -> Seq<char> {
    "GoCommand { search_moves: "@ + list_text(c.search_moves) + ", ponder: "@ + bool_text(c.ponder)
        + ", white_time: "@ + option_text(c.white_time) + ", black_time: "@ + option_text(
        c.black_time,
    ) + ", white_increment: "@ + option_text(c.white_increment) + ", black_increment: "@
        + option_text(c.black_increment) + ", moves_to_go: "@ + option_text(c.moves_to_go)
        + ", depth: "@ + option_text(c.depth) + ", nodes: "@ + option_text(c.nodes)
        + ", move_time: "@ + option_text(c.move_time) + ", infinite: "@ + bool_text(c.infinite)
        + " }"@
}

fn push_bool(out: &mut Vec<char>, b: bool)
    ensures
        final(out)@ == old(out)@ + bool_text(b),
{
    if b {
        push_str(out, "true");
    } else {
        push_str(out, "false");
    }
}

fn push_option(out: &mut Vec<char>, o: Option<usize>)
    ensures
        final(out)@ == old(out)@ + option_text(commands::nat_of(o)),
{
    match o {
        Some(n) => {
            let ghost start = out@;
            push_str(out, "Some(");
            push_decimal(out, n as u64);
            push_str(out, ")");
            proof {
                assert(out@ =~= start + ("Some("@ + decimal(n as nat) + ")"@));
            }
        },
        None => push_str(out, "None"),
    }
}

fn push_list(out: &mut Vec<char>, v: &Vec<String>)
    ensures
        final(out)@ == old(out)@ + list_text(string_views(v@)),
{
    let ghost start = out@;
    let ghost w = string_views(v@);
    push_str(out, "[");
    let mut i: usize = 0;
    proof {
        assert(w.subrange(0, 0) =~= Seq::<Seq<char>>::empty());
    }
    while i < v.len()
        invariant
            i <= v.len(),
            w == string_views(v@),
            out@ == start + "["@ + list_items(w.subrange(0, i as int)),
        decreases v.len() - i,
    {
        let ghost part = w.subrange(0, i + 1);
        proof {
            assert(part.drop_last() =~= w.subrange(0, i as int));
        }
        if i > 0 {
            push_str(out, ", ");
        }
        let q = quote_debug(v[i].as_str());
        push_str(out, q.as_str());
        proof {
            if i == 0 {
                assert(out@ =~= start + "["@ + list_items(part));
            } else {
                assert(out@ =~= start + "["@ + (list_items(part.drop_last()) + ", "@ + debug_text(
                    part.last(),
                )));
            }
        }
        i = i + 1;
    }
    push_str(out, "]");
    proof {
        assert(w.subrange(0, v.len() as int) =~= w);
        assert(out@ =~= start + list_text(w));
    }
}

fn debug_command_line(state: bool) -> (r: Vec<char>)
    ensures
        r@ == "Command Received: "@ + debug_command_text(state),
{
    let mut text = str_to_chars("DebugCommand { state: ");
    push_bool(&mut text, state);
    push_str(&mut text, " }");
    let mut out = str_to_chars("Command Received: ");
    push_chars(&mut out, &text);
    out
}

fn position_command_line(c: &PositionCommand) -> (r: Vec<char>)
    ensures
        r@ == "Command Received: "@ + position_command_text(c@),
{
    let mut text = str_to_chars("PositionCommand { fen: ");
    let q = quote_debug(c.fen.as_str());
    push_str(&mut text, q.as_str());
    push_str(&mut text, ", moves: ");
    push_list(&mut text, &c.moves);
    push_str(&mut text, " }");
    let mut out = str_to_chars("Command Received: ");
    push_chars(&mut out, &text);
    out
}

fn go_command_line(c: &GoCommand) -> (r: Vec<char>)
    ensures
        r@ == "Command Received: "@ + go_command_text(c@),
{
    let depth: Option<usize> = match c.depth {
        Some(d) => Some(d as usize),
        None => None,
    };
    assert(commands::nat_of(depth) == commands::nat_of_u8(c.depth));
    let mut text = str_to_chars("GoCommand { search_moves: ");
    push_list(&mut text, &c.search_moves);
    push_str(&mut text, ", ponder: ");
    push_bool(&mut text, c.ponder);
    push_str(&mut text, ", white_time: ");
    push_option(&mut text, c.white_time);
    push_str(&mut text, ", black_time: ");
    push_option(&mut text, c.black_time);
    push_str(&mut text, ", white_increment: ");
    push_option(&mut text, c.white_increment);
    push_str(&mut text, ", black_increment: ");
    push_option(&mut text, c.black_increment);
    push_str(&mut text, ", moves_to_go: ");
    push_option(&mut text, c.moves_to_go);
    push_str(&mut text, ", depth: ");
    push_option(&mut text, depth);
    push_str(&mut text, ", nodes: ");
    push_option(&mut text, c.nodes);
    push_str(&mut text, ", move_time: ");
    push_option(&mut text, c.move_time);
    push_str(&mut text, ", infinite: ");
    push_bool(&mut text, c.infinite);
    push_str(&mut text, " }");
    let mut out = str_to_chars("Command Received: ");
    push_chars(&mut out, &text);
    out
}

/// Adds a line of output.
fn emit(out: &mut Vec<String>, line: &Vec<char>)
    ensures
        string_views(final(out)@) == string_views(old(out)@).push(line@),
{
    let s = chars_to_string(line);
    let ghost before = out@;
    out.push(s);
    proof {
        assert(string_views(out@) =~= string_views(before).push(line@));
    }
}

/// Adds a line of output that is fixed text.
fn emit_str(out: &mut Vec<String>, line: &str)
    ensures
        string_views(final(out)@) == string_views(old(out)@).push(line@),
{
    let ghost before = out@;
    out.push(line.to_owned());
    proof {
        assert(string_views(out@) =~= string_views(before).push(line@));
    }
}

/// The engine's side of the protocol: who it is, and whether debug output is on.
pub struct UCI {
    pub name: String,
    pub author: String,
    pub debug: bool,
    pub running: bool,
}

impl UCI {
    pub fn new(name: &str, author: &str) -> (r: UCI)
        ensures
            r.name@ == name@,
            r.author@ == author@,
            !r.debug,
            r.running,
    {
        UCI { name: name.to_owned(), author: author.to_owned(), debug: false, running: true }
    }

    /// Writes `message` as an `info string` line, if debug output is on.
    pub fn send_debug(&self, out: &mut Vec<String>, message: &str) -> (r: Result<
        Option<Command>,
        UCIError,
    >)
        ensures
            r matches Ok(None),
            string_views(final(out)@) == string_views(old(out)@) + info(self.debug, message@),
    {
        let ghost before = string_views(out@);
        if self.debug {
            let mut line: Vec<char> = Vec::new();
            push_str(&mut line, "info string ");
            push_str(&mut line, message);
            emit(out, &line);
            proof {
                assert(string_views(out@) =~= before + info(self.debug, message@));
            }
        } else {
            proof {
                assert(string_views(out@) =~= before + info(self.debug, message@));
            }
        }
        Ok(None)
    }

    fn send_debug_chars(&self, out: &mut Vec<String>, message: &Vec<char>)
        ensures
            string_views(final(out)@) == string_views(old(out)@) + info(self.debug, message@),
    {
        let s = chars_to_string(message);
        let _ = self.send_debug(out, s.as_str());
    }

    /// Writes `readyok`.
    pub fn send_readyok(&self, out: &mut Vec<String>) -> (r: Result<Option<Command>, UCIError>)
        ensures
            r matches Ok(None),
            string_views(final(out)@) == string_views(old(out)@) + info(
                self.debug,
                "Command Send: readyok"@,
            ) + seq!["readyok"@],
    {
        let ghost before = string_views(out@);
        let _ = self.send_debug(out, "Command Send: readyok");
        emit_str(out, "readyok");
        proof {
            assert(string_views(out@) =~= before + info(self.debug, "Command Send: readyok"@)
                + seq!["readyok"@]);
        }
        Ok(None)
    }

    fn push_id(&self, out: &mut Vec<String>)
        ensures
            string_views(final(out)@) == string_views(old(out)@) + id_lines(self.name@, self.author@),
    {
        let ghost before = string_views(out@);
        let mut line: Vec<char> = Vec::new();
        push_str(&mut line, "id name ");
        push_str(&mut line, self.name.as_str());
        emit(out, &line);
        let mut line: Vec<char> = Vec::new();
        push_str(&mut line, "id author ");
        push_str(&mut line, self.author.as_str());
        emit(out, &line);
        proof {
            assert(string_views(out@) =~= before + id_lines(self.name@, self.author@));
        }
    }

    /// Writes who the engine is.
    pub fn send_id(&self, out: &mut Vec<String>) -> (r: Result<Option<Command>, UCIError>)
        ensures
            r matches Ok(None),
            string_views(final(out)@) == string_views(old(out)@) + info(
                self.debug,
                "Command Send: id"@,
            ) + id_lines(self.name@, self.author@),
    {
        let ghost before = string_views(out@);
        let _ = self.send_debug(out, "Command Send: id");
        self.push_id(out);
        proof {
            assert(string_views(out@) =~= before + info(self.debug, "Command Send: id"@) + id_lines(
                self.name@,
                self.author@,
            ));
        }
        Ok(None)
    }

    /// Writes `uciok`.
    pub fn send_uciok(&self, out: &mut Vec<String>) -> (r: Result<Option<Command>, UCIError>)
        ensures
            r matches Ok(None),
            string_views(final(out)@) == string_views(old(out)@) + info(
                self.debug,
                "Command Send: uciok"@,
            ) + seq!["uciok"@],
    {
        let ghost before = string_views(out@);
        let _ = self.send_debug(out, "Command Send: uciok");
        emit_str(out, "uciok");
        proof {
            assert(string_views(out@) =~= before + info(self.debug, "Command Send: uciok"@)
                + seq!["uciok"@]);
        }
        Ok(None)
    }

    /// Writes the move that the search chose.
    pub fn send_bestmove(&self, out: &mut Vec<String>, mov: &Move) -> (r: Result<
        Option<Command>,
        UCIError,
    >)
        requires
            mov.wf(),
        ensures
            r matches Ok(None),
            string_views(final(out)@) == string_views(old(out)@) + info(
                self.debug,
                "Command Send: bestmove "@ + move_text(*mov),
            ) + seq!["bestmove "@ + move_text(*mov)],
    {
        let ghost before = string_views(out@);
        let text = mov.to_string();
        let mut msg: Vec<char> = Vec::new();
        push_str(&mut msg, "Command Send: bestmove ");
        push_str(&mut msg, text.as_str());
        self.send_debug_chars(out, &msg);
        let mut line: Vec<char> = Vec::new();
        push_str(&mut line, "bestmove ");
        push_str(&mut line, text.as_str());
        emit(out, &line);
        proof {
            assert(string_views(out@) =~= before + info(
                self.debug,
                "Command Send: bestmove "@ + move_text(*mov),
            ) + seq!["bestmove "@ + move_text(*mov)]);
        }
        Ok(None)
    }

    fn received_uci(&self, out: &mut Vec<String>) -> (r: Result<Option<Command>, UCIError>)
        ensures
            r matches Ok(None),
            string_views(final(out)@) == string_views(old(out)@) + info(
                self.debug,
                "Command Received: uci"@,
            ) + info(self.debug, "Command Send: id"@) + id_lines(self.name@, self.author@) + info(
                self.debug,
                "Command Send: uciok"@,
            ) + seq!["uciok"@],
    {
        let _ = self.send_debug(out, "Command Received: uci");
        let _ = self.send_id(out);
        let _ = self.send_uciok(out);
        Ok(None)
    }

    fn received_debug(&mut self, out: &mut Vec<String>, command: &str, tokens: &mut TokenStream) -> (r:
        Result<Option<Command>, UCIError>)
        requires
            old(tokens).wf(),
        ensures
            final(self).name == old(self).name,
            final(self).author == old(self).author,
            final(self).running == old(self).running,
            match debug_token_outcome(old(tokens).toks(), old(tokens).pos as int) {
                Parsed::Done(b, _) => r matches Ok(None) && final(self).debug == b && string_views(
                    final(out)@,
                ) == string_views(old(out)@) + info(b, "Command Received: "@ + debug_command_text(b)),
                o => r matches Err(e) && error_holds(e, o, command@) && final(self).debug == old(self).debug && final(out)@ == old(out)@,
            },
    {
        match DebugCommand::parse(command, tokens) {
            Ok(result) => {
                self.debug = result.state;
                let msg = debug_command_line(result.state);
                self.send_debug_chars(out, &msg);
                Ok(None)
            },
            Err(e) => Err(e),
        }
    }

    fn received_isready(&mut self, out: &mut Vec<String>) -> (r: Result<Option<Command>, UCIError>)
        ensures
            *final(self) == *old(self),
            r matches Ok(Some(c)) && c@ == CommandView::IsReady,
            string_views(final(out)@) == string_views(old(out)@) + info(
                old(self).debug,
                "Command Received: isready"@,
            ),
    {
        let _ = self.send_debug(out, "Command Received: isready");
        Ok(Some(Command::IsReady))
    }

    fn received_quit(&mut self, out: &mut Vec<String>) -> (r: Result<Option<Command>, UCIError>)
        ensures
            *final(self) == *old(self),
            r matches Ok(Some(c)) && c@ == CommandView::Quit,
            string_views(final(out)@) == string_views(old(out)@) + info(
                old(self).debug,
                "Command Received: quit"@,
            ),
    {
        let _ = self.send_debug(out, "Command Received: quit");
        Ok(Some(Command::Quit))
    }

    fn received_position(&mut self, out: &mut Vec<String>, command: &str, tokens: &mut TokenStream) -> (r:
        Result<Option<Command>, UCIError>)
        requires
            old(tokens).wf(),
        ensures
            *final(self) == *old(self),
            match position_command_outcome(old(tokens).toks(), old(tokens).pos as int) {
                Parsed::Done(c, _) => r matches Ok(Some(x)) && x@ == CommandView::Position(c)
                    && string_views(final(out)@) == string_views(old(out)@) + info(
                    old(self).debug,
                    "Command Received: "@ + position_command_text(c),
                ),
                o => r matches Err(e) && error_holds(e, o, command@) && final(out)@ == old(out)@,
            },
    {
        match PositionCommand::parse(command, tokens) {
            Ok(result) => {
                let msg = position_command_line(&result);
                self.send_debug_chars(out, &msg);
                Ok(Some(Command::Position(result)))
            },
            Err(e) => Err(e),
        }
    }

    /// Reads the arguments of a `go` command.
    pub fn received_go(&mut self, out: &mut Vec<String>, command: &str, tokens: &mut TokenStream) -> (r:
        Result<Option<Command>, UCIError>)
        requires
            old(tokens).wf(),
        ensures
            *final(self) == *old(self),
            match go_command_outcome(old(tokens).toks(), old(tokens).pos as int) {
                Parsed::Done(c, _) => r matches Ok(Some(x)) && x@ == CommandView::Go(c)
                    && string_views(final(out)@) == string_views(old(out)@) + info(
                    old(self).debug,
                    "Command Received: "@ + go_command_text(c),
                ),
                o => r matches Err(e) && error_holds(e, o, command@) && final(out)@ == old(out)@,
            },
    {
        match GoCommand::parse(command, tokens) {
            Ok(result) => {
                let msg = go_command_line(&result);
                self.send_debug_chars(out, &msg);
                Ok(Some(Command::Go(result)))
            },
            Err(e) => Err(e),
        }
    }

    /// Answers `cache_stats`.
    pub fn received_cache_stats(&mut self, out: &mut Vec<String>) -> (r: Result<
        Option<Command>,
        UCIError,
    >)
        ensures
            *final(self) == *old(self),
            r matches Ok(Some(c)) && c@ == CommandView::CacheStats,
            string_views(final(out)@) == string_views(old(out)@) + info(
                old(self).debug,
                "Command Received: cache_stats"@,
            ),
    {
        let _ = self.send_debug(out, "Command Received: cache_stats");
        Ok(Some(Command::CacheStats))
    }

    /// Answers `show`.
    pub fn received_show(&mut self, out: &mut Vec<String>) -> (r: Result<Option<Command>, UCIError>)
        ensures
            *final(self) == *old(self),
            r matches Ok(Some(c)) && c@ == CommandView::Show,
            string_views(final(out)@) == string_views(old(out)@) + info(
                old(self).debug,
                "Command Received: show"@,
            ),
    {
        let _ = self.send_debug(out, "Command Received: show");
        Ok(Some(Command::Show))
    }

    /// Handles one line of input: the command it holds is answered on `out`, or handed back
    /// when the engine has to act on it.
    pub fn receive_command(&mut self, line: &str, out: &mut Vec<String>) -> (r: Result<
        Option<Command>,
        UCIError,
    >)
        ensures
            final(self).name == old(self).name,
            final(self).author == old(self).author,
            final(self).running == old(self).running,
            ({
                let t = words(line@);
                let d = old(self).debug;
                let before = string_views(old(out)@);
                let after = string_views(final(out)@);
                let same = final(self).debug == d;
                t.len() == 0 ==> (r matches Err(e) && is_not_enough(e, line@) && after == before
                    && same)
            }),
            ({
                let t = words(line@);
                let d = old(self).debug;
                let before = string_views(old(out)@);
                let after = string_views(final(out)@);
                let same = final(self).debug == d;
                t.len() > 0 && t[0] == "uci"@ ==> (r matches Ok(None) && same && after == before
                    + info(d, "Command Received: uci"@) + info(d, "Command Send: id"@) + id_lines(
                    old(self).name@,
                    old(self).author@,
                ) + info(d, "Command Send: uciok"@) + seq!["uciok"@])
            }),
            ({
                let t = words(line@);
                let d = old(self).debug;
                let before = string_views(old(out)@);
                let after = string_views(final(out)@);
                let same = final(self).debug == d;
                t.len() > 0 && t[0] == "ucinewgame"@ ==> (r matches Ok(None) && same && after
                    == before)
            }),
            ({
                let t = words(line@);
                let d = old(self).debug;
                let before = string_views(old(out)@);
                let after = string_views(final(out)@);
                let same = final(self).debug == d;
                t.len() > 0 && t[0] == "debug"@ ==> match debug_token_outcome(t, 1) {
                    Parsed::Done(b, _) => r matches Ok(None) && final(self).debug == b && after
                        == before + info(b, "Command Received: "@ + debug_command_text(b)),
                    o => r matches Err(e) && error_holds(e, o, line@) && same && after == before,
                }
            }),
            ({
                let t = words(line@);
                let d = old(self).debug;
                let before = string_views(old(out)@);
                let after = string_views(final(out)@);
                let same = final(self).debug == d;
                t.len() > 0 && t[0] == "isready"@ ==> (r matches Ok(Some(c)) && c@
                    == CommandView::IsReady && same && after == before + info(
                    d,
                    "Command Received: isready"@,
                ))
            }),
            ({
                let t = words(line@);
                let d = old(self).debug;
                let before = string_views(old(out)@);
                let after = string_views(final(out)@);
                let same = final(self).debug == d;
                t.len() > 0 && t[0] == "quit"@ ==> (r matches Ok(Some(c)) && c@
                    == CommandView::Quit && same && after == before + info(
                    d,
                    "Command Received: quit"@,
                ))
            }),
            ({
                let t = words(line@);
                let d = old(self).debug;
                let before = string_views(old(out)@);
                let after = string_views(final(out)@);
                let same = final(self).debug == d;
                t.len() > 0 && t[0] == "position"@ ==> match position_command_outcome(t, 1) {
                    Parsed::Done(c, _) => r matches Ok(Some(x)) && x@ == CommandView::Position(c)
                        && same && after == before + info(
                        d,
                        "Command Received: "@ + position_command_text(c),
                    ),
                    o => r matches Err(e) && error_holds(e, o, line@) && same && after == before,
                }
            }),
            ({
                let t = words(line@);
                let d = old(self).debug;
                let before = string_views(old(out)@);
                let after = string_views(final(out)@);
                let same = final(self).debug == d;
                t.len() > 0 && t[0] == "show"@ ==> (r matches Ok(Some(c)) && c@
                    == CommandView::Show && same && after == before + info(
                    d,
                    "Command Received: show"@,
                ))
            }),
            ({
                let t = words(line@);
                let d = old(self).debug;
                let before = string_views(old(out)@);
                let after = string_views(final(out)@);
                let same = final(self).debug == d;
                t.len() > 0 && t[0] == "go"@ ==> match go_command_outcome(t, 1) {
                    Parsed::Done(c, _) => r matches Ok(Some(x)) && x@ == CommandView::Go(c) && same
                        && after == before + info(d, "Command Received: "@ + go_command_text(c)),
                    o => r matches Err(e) && error_holds(e, o, line@) && same && after == before,
                }
            }),
            ({
                let t = words(line@);
                let d = old(self).debug;
                let before = string_views(old(out)@);
                let after = string_views(final(out)@);
                let same = final(self).debug == d;
                t.len() > 0 && t[0] == "cache_stats"@ ==> (r matches Ok(Some(c)) && c@
                    == CommandView::CacheStats && same && after == before + info(
                    d,
                    "Command Received: cache_stats"@,
                ))
            }),
            ({
                let t = words(line@);
                let d = old(self).debug;
                let before = string_views(old(out)@);
                let after = string_views(final(out)@);
                let same = final(self).debug == d;
                t.len() > 0 && !is_command_word(t[0]) ==> (r matches Err(e) && is_unknown(
                    e,
                    line@,
                ) && same && after == before)
            }),
    {
        proof {
            lemma_command_words();
        }
        let mut tokens = TokenStream::new(line);
        if !tokens.has_next() {
            return Err(UCIError::NotEnoughArguments(NotEnoughArguments::new(line)));
        }
        tokens.pos = 1;
        if chars_are(&tokens.tokens[0], "uci") {
            self.received_uci(out)
        } else if chars_are(&tokens.tokens[0], "ucinewgame") {
            Ok(None)
        } else if chars_are(&tokens.tokens[0], "debug") {
            self.received_debug(out, line, &mut tokens)
        } else if chars_are(&tokens.tokens[0], "isready") {
            self.received_isready(out)
        } else if chars_are(&tokens.tokens[0], "quit") {
            self.received_quit(out)
        } else if chars_are(&tokens.tokens[0], "position") {
            self.received_position(out, line, &mut tokens)
        } else if chars_are(&tokens.tokens[0], "show") {
            self.received_show(out)
        } else if chars_are(&tokens.tokens[0], "go") {
            self.received_go(out, line, &mut tokens)
        } else if chars_are(&tokens.tokens[0], "cache_stats") {
            self.received_cache_stats(out)
        } else {
            Err(UCIError::UnknownCommand(UnknownCommand::new(line)))
        }
    }

    /// Handles one line of input the way the first version of the protocol did: only `uci`,
    /// `debug`, `isready` and `quit`, answered without debug lines.
    pub fn handle_command(&mut self, line: &str, out: &mut Vec<String>) -> (r: Result<(), UCIError>)
        ensures
            final(self).name == old(self).name,
            final(self).author == old(self).author,
            ({
                let t = words(line@);
                let before = string_views(old(out)@);
                let after = string_views(final(out)@);
                let same = final(self).debug == old(self).debug && final(self).running == old(self).running;
                let known = (t.len() == 1 && (t[0] == "uci"@ || t[0] == "isready"@ || t[0]
                    == "quit"@)) || (t.len() > 0 && t[0] == "debug"@);
                t.len() == 1 && t[0] == "uci"@ ==> r is Ok && same && after == before
                    + id_lines(old(self).name@, old(self).author@) + seq!["uciok"@]
            }),
            ({
                let t = words(line@);
                let before = string_views(old(out)@);
                let after = string_views(final(out)@);
                let same = final(self).debug == old(self).debug && final(self).running == old(self).running;
                let known = (t.len() == 1 && (t[0] == "uci"@ || t[0] == "isready"@ || t[0]
                    == "quit"@)) || (t.len() > 0 && t[0] == "debug"@);
                t.len() == 1 && t[0] == "isready"@ ==> r is Ok && same && after == before
                    + seq!["readyok"@]
            }),
            ({
                let t = words(line@);
                let before = string_views(old(out)@);
                let after = string_views(final(out)@);
                let same = final(self).debug == old(self).debug && final(self).running == old(self).running;
                let known = (t.len() == 1 && (t[0] == "uci"@ || t[0] == "isready"@ || t[0]
                    == "quit"@)) || (t.len() > 0 && t[0] == "debug"@);
                t.len() == 1 && t[0] == "quit"@ ==> r is Ok && !final(self).running
                    && final(self).debug == old(self).debug && after == before
            }),
            ({
                let t = words(line@);
                let before = string_views(old(out)@);
                let after = string_views(final(out)@);
                let same = final(self).debug == old(self).debug && final(self).running == old(self).running;
                let known = (t.len() == 1 && (t[0] == "uci"@ || t[0] == "isready"@ || t[0]
                    == "quit"@)) || (t.len() > 0 && t[0] == "debug"@);
                t.len() == 1 && t[0] == "debug"@ ==> (r matches Err(e) && is_not_enough(
                    e,
                    line@,
                ) && same && after == before)
            }),
            ({
                let t = words(line@);
                let before = string_views(old(out)@);
                let after = string_views(final(out)@);
                let same = final(self).debug == old(self).debug && final(self).running == old(self).running;
                let known = (t.len() == 1 && (t[0] == "uci"@ || t[0] == "isready"@ || t[0]
                    == "quit"@)) || (t.len() > 0 && t[0] == "debug"@);
                t.len() > 1 && t[0] == "debug"@ && t[1] == "on"@ ==> r is Ok && final(self).debug && final(self).running == old(self).running && after == before
            }),
            ({
                let t = words(line@);
                let before = string_views(old(out)@);
                let after = string_views(final(out)@);
                let same = final(self).debug == old(self).debug && final(self).running == old(self).running;
                let known = (t.len() == 1 && (t[0] == "uci"@ || t[0] == "isready"@ || t[0]
                    == "quit"@)) || (t.len() > 0 && t[0] == "debug"@);
                t.len() > 1 && t[0] == "debug"@ && t[1] == "off"@ ==> r is Ok && !final(self).debug && final(self).running == old(self).running && after == before
            }),
            ({
                let t = words(line@);
                let before = string_views(old(out)@);
                let after = string_views(final(out)@);
                let same = final(self).debug == old(self).debug && final(self).running == old(self).running;
                let known = (t.len() == 1 && (t[0] == "uci"@ || t[0] == "isready"@ || t[0]
                    == "quit"@)) || (t.len() > 0 && t[0] == "debug"@);
                t.len() > 1 && t[0] == "debug"@ && t[1] != "on"@ && t[1] != "off"@ ==> (r matches Err(e) && is_invalid(e, "Debug can only be on or off."@) && same && after == before)
            }),
            ({
                let t = words(line@);
                let before = string_views(old(out)@);
                let after = string_views(final(out)@);
                let same = final(self).debug == old(self).debug && final(self).running == old(self).running;
                let known = (t.len() == 1 && (t[0] == "uci"@ || t[0] == "isready"@ || t[0]
                    == "quit"@)) || (t.len() > 0 && t[0] == "debug"@);
                !known ==> (r matches Err(e) && is_unknown(e, line@) && same && after == before)
            }),
    {
        proof {
            lemma_command_words();
        }
        let tokens = TokenStream::new(line);
        let n = tokens.tokens.len();
        if n == 1 && chars_are(&tokens.tokens[0], "uci") {
            self.push_id(out);
            emit_str(out, "uciok");
            Ok(())
        } else if n > 0 && chars_are(&tokens.tokens[0], "debug") {
            if n == 1 {
                Err(UCIError::NotEnoughArguments(NotEnoughArguments::new(line)))
            } else if chars_are(&tokens.tokens[1], "on") {
                self.debug = true;
                Ok(())
            } else if chars_are(&tokens.tokens[1], "off") {
                self.debug = false;
                Ok(())
            } else {
                Err(UCIError::InvalidArgument(InvalidArgument::new("Debug can only be on or off.")))
            }
        } else if n == 1 && chars_are(&tokens.tokens[0], "isready") {
            emit_str(out, "readyok");
            Ok(())
        } else if n == 1 && chars_are(&tokens.tokens[0], "quit") {
            self.running = false;
            Ok(())
        } else {
            Err(UCIError::UnknownCommand(UnknownCommand::new(line)))
        }
    }
}

/// The command words differ from one another.
proof fn lemma_command_words()
    ensures
        "uci"@ != "ucinewgame"@,
        "uci"@ != "debug"@,
        "uci"@ != "isready"@,
        "uci"@ != "quit"@,
        "uci"@ != "position"@,
        "uci"@ != "show"@,
        "uci"@ != "go"@,
        "uci"@ != "cache_stats"@,
        "ucinewgame"@ != "debug"@,
        "ucinewgame"@ != "isready"@,
        "ucinewgame"@ != "quit"@,
        "ucinewgame"@ != "position"@,
        "ucinewgame"@ != "show"@,
        "ucinewgame"@ != "go"@,
        "ucinewgame"@ != "cache_stats"@,
        "debug"@ != "isready"@,
        "debug"@ != "quit"@,
        "debug"@ != "position"@,
        "debug"@ != "show"@,
        "debug"@ != "go"@,
        "debug"@ != "cache_stats"@,
        "isready"@ != "quit"@,
        "isready"@ != "position"@,
        "isready"@ != "show"@,
        "isready"@ != "go"@,
        "isready"@ != "cache_stats"@,
        "quit"@ != "position"@,
        "quit"@ != "show"@,
        "quit"@ != "go"@,
        "quit"@ != "cache_stats"@,
        "position"@ != "show"@,
        "position"@ != "go"@,
        "position"@ != "cache_stats"@,
        "show"@ != "go"@,
        "show"@ != "cache_stats"@,
        "go"@ != "cache_stats"@,
        "on"@ != "off"@,
{
    reveal_strlit("uci");
    reveal_strlit("ucinewgame");
    reveal_strlit("debug");
    reveal_strlit("isready");
    reveal_strlit("quit");
    reveal_strlit("position");
    reveal_strlit("show");
    reveal_strlit("go");
    reveal_strlit("cache_stats");
    reveal_strlit("on");
    reveal_strlit("off");
    assert("uci"@ != "ucinewgame"@) by { if "uci"@.len() == "ucinewgame"@.len() { assert("uci"@[0] != "ucinewgame"@[0]); } }
    assert("uci"@ != "debug"@) by { if "uci"@.len() == "debug"@.len() { assert("uci"@[0] != "debug"@[0]); } }
    assert("uci"@ != "isready"@) by { if "uci"@.len() == "isready"@.len() { assert("uci"@[0] != "isready"@[0]); } }
    assert("uci"@ != "quit"@) by { if "uci"@.len() == "quit"@.len() { assert("uci"@[0] != "quit"@[0]); } }
    assert("uci"@ != "position"@) by { if "uci"@.len() == "position"@.len() { assert("uci"@[0] != "position"@[0]); } }
    assert("uci"@ != "show"@) by { if "uci"@.len() == "show"@.len() { assert("uci"@[0] != "show"@[0]); } }
    assert("uci"@ != "go"@) by { if "uci"@.len() == "go"@.len() { assert("uci"@[0] != "go"@[0]); } }
    assert("uci"@ != "cache_stats"@) by { if "uci"@.len() == "cache_stats"@.len() { assert("uci"@[0] != "cache_stats"@[0]); } }
    assert("ucinewgame"@ != "debug"@) by { if "ucinewgame"@.len() == "debug"@.len() { assert("ucinewgame"@[0] != "debug"@[0]); } }
    assert("ucinewgame"@ != "isready"@) by { if "ucinewgame"@.len() == "isready"@.len() { assert("ucinewgame"@[0] != "isready"@[0]); } }
    assert("ucinewgame"@ != "quit"@) by { if "ucinewgame"@.len() == "quit"@.len() { assert("ucinewgame"@[0] != "quit"@[0]); } }
    assert("ucinewgame"@ != "position"@) by { if "ucinewgame"@.len() == "position"@.len() { assert("ucinewgame"@[0] != "position"@[0]); } }
    assert("ucinewgame"@ != "show"@) by { if "ucinewgame"@.len() == "show"@.len() { assert("ucinewgame"@[0] != "show"@[0]); } }
    assert("ucinewgame"@ != "go"@) by { if "ucinewgame"@.len() == "go"@.len() { assert("ucinewgame"@[0] != "go"@[0]); } }
    assert("ucinewgame"@ != "cache_stats"@) by { if "ucinewgame"@.len() == "cache_stats"@.len() { assert("ucinewgame"@[0] != "cache_stats"@[0]); } }
    assert("debug"@ != "isready"@) by { if "debug"@.len() == "isready"@.len() { assert("debug"@[0] != "isready"@[0]); } }
    assert("debug"@ != "quit"@) by { if "debug"@.len() == "quit"@.len() { assert("debug"@[0] != "quit"@[0]); } }
    assert("debug"@ != "position"@) by { if "debug"@.len() == "position"@.len() { assert("debug"@[0] != "position"@[0]); } }
    assert("debug"@ != "show"@) by { if "debug"@.len() == "show"@.len() { assert("debug"@[0] != "show"@[0]); } }
    assert("debug"@ != "go"@) by { if "debug"@.len() == "go"@.len() { assert("debug"@[0] != "go"@[0]); } }
    assert("debug"@ != "cache_stats"@) by { if "debug"@.len() == "cache_stats"@.len() { assert("debug"@[0] != "cache_stats"@[0]); } }
    assert("isready"@ != "quit"@) by { if "isready"@.len() == "quit"@.len() { assert("isready"@[0] != "quit"@[0]); } }
    assert("isready"@ != "position"@) by { if "isready"@.len() == "position"@.len() { assert("isready"@[0] != "position"@[0]); } }
    assert("isready"@ != "show"@) by { if "isready"@.len() == "show"@.len() { assert("isready"@[0] != "show"@[0]); } }
    assert("isready"@ != "go"@) by { if "isready"@.len() == "go"@.len() { assert("isready"@[0] != "go"@[0]); } }
    assert("isready"@ != "cache_stats"@) by { if "isready"@.len() == "cache_stats"@.len() { assert("isready"@[0] != "cache_stats"@[0]); } }
    assert("quit"@ != "position"@) by { if "quit"@.len() == "position"@.len() { assert("quit"@[0] != "position"@[0]); } }
    assert("quit"@ != "show"@) by { if "quit"@.len() == "show"@.len() { assert("quit"@[0] != "show"@[0]); } }
    assert("quit"@ != "go"@) by { if "quit"@.len() == "go"@.len() { assert("quit"@[0] != "go"@[0]); } }
    assert("quit"@ != "cache_stats"@) by { if "quit"@.len() == "cache_stats"@.len() { assert("quit"@[0] != "cache_stats"@[0]); } }
    assert("position"@ != "show"@) by { if "position"@.len() == "show"@.len() { assert("position"@[0] != "show"@[0]); } }
    assert("position"@ != "go"@) by { if "position"@.len() == "go"@.len() { assert("position"@[0] != "go"@[0]); } }
    assert("position"@ != "cache_stats"@) by { if "position"@.len() == "cache_stats"@.len() { assert("position"@[0] != "cache_stats"@[0]); } }
    assert("show"@ != "go"@) by { if "show"@.len() == "go"@.len() { assert("show"@[0] != "go"@[0]); } }
    assert("show"@ != "cache_stats"@) by { if "show"@.len() == "cache_stats"@.len() { assert("show"@[0] != "cache_stats"@[0]); } }
    assert("go"@ != "cache_stats"@) by { if "go"@.len() == "cache_stats"@.len() { assert("go"@[0] != "cache_stats"@[0]); } }
    assert("on"@ != "off"@) by { if "on"@.len() == "off"@.len() { assert("on"@[0] != "off"@[0]); } }
}

/// The first words of the commands that `receive_command` knows.
pub open spec fn is_command_word(w: Seq<char>) -> bool {
    ||| w == "uci"@
    ||| w == "ucinewgame"@
    ||| w == "debug"@
    ||| w == "isready"@
    ||| w == "quit"@
    ||| w == "position"@
    ||| w == "show"@
    ||| w == "go"@
    ||| w == "cache_stats"@
}

/// A command read from the engine's input, as the reading side of the protocol hands it to
/// the side that acts on it.
pub enum UCICommand {
    UCI,
    UCINewGame,
    Debug(DebugCommand),
    Position(PositionCommand),
    IsReady,
    SetOption(SetOptionCommand),
    Go(GoCommand),
    Stop,
    Quit,
    Show,
    Analyse,
}

/// The first words of the commands that `parse_command` knows.
pub open spec fn is_parsed_word(w: Seq<char>) -> bool {
    ||| w == "uci"@
    ||| w == "ucinewgame"@
    ||| w == "analyse"@
    ||| w == "debug"@
    ||| w == "isready"@
    ||| w == "quit"@
    ||| w == "stop"@
    ||| w == "position"@
    ||| w == "go"@
    ||| w == "show"@
    ||| w == "setoption"@
}

/// The words that name a command without arguments differ from one another.
proof fn lemma_plain_words()
    ensures
        "uci"@ != "ucinewgame"@,
        "uci"@ != "analyse"@,
        "uci"@ != "isready"@,
        "uci"@ != "quit"@,
        "uci"@ != "stop"@,
        "uci"@ != "show"@,
        "ucinewgame"@ != "analyse"@,
        "ucinewgame"@ != "isready"@,
        "ucinewgame"@ != "quit"@,
        "ucinewgame"@ != "stop"@,
        "ucinewgame"@ != "show"@,
        "analyse"@ != "isready"@,
        "analyse"@ != "quit"@,
        "analyse"@ != "stop"@,
        "analyse"@ != "show"@,
        "isready"@ != "quit"@,
        "isready"@ != "stop"@,
        "isready"@ != "show"@,
        "quit"@ != "stop"@,
        "quit"@ != "show"@,
        "stop"@ != "show"@,
        "debug"@ != "uci"@,
        "debug"@ != "ucinewgame"@,
        "debug"@ != "analyse"@,
        "debug"@ != "isready"@,
        "debug"@ != "quit"@,
        "debug"@ != "stop"@,
        "debug"@ != "show"@,
        "position"@ != "uci"@,
        "position"@ != "ucinewgame"@,
        "position"@ != "analyse"@,
        "position"@ != "isready"@,
        "position"@ != "quit"@,
        "position"@ != "stop"@,
        "position"@ != "show"@,
        "position"@ != "debug"@,
        "go"@ != "uci"@,
        "go"@ != "ucinewgame"@,
        "go"@ != "analyse"@,
        "go"@ != "isready"@,
        "go"@ != "quit"@,
        "go"@ != "stop"@,
        "go"@ != "show"@,
        "go"@ != "debug"@,
        "go"@ != "position"@,
        "setoption"@ != "uci"@,
        "setoption"@ != "ucinewgame"@,
        "setoption"@ != "analyse"@,
        "setoption"@ != "isready"@,
        "setoption"@ != "quit"@,
        "setoption"@ != "stop"@,
        "setoption"@ != "show"@,
        "setoption"@ != "debug"@,
        "setoption"@ != "position"@,
        "setoption"@ != "go"@,
{
    reveal_strlit("analyse");
    reveal_strlit("debug");
    reveal_strlit("go");
    reveal_strlit("isready");
    reveal_strlit("position");
    reveal_strlit("quit");
    reveal_strlit("setoption");
    reveal_strlit("show");
    reveal_strlit("stop");
    reveal_strlit("uci");
    reveal_strlit("ucinewgame");
    assert("uci"@ != "ucinewgame"@) by { if "uci"@.len() == "ucinewgame"@.len() { assert("uci"@[0] != "ucinewgame"@[0] || "uci"@[1] != "ucinewgame"@[1]); } }
    assert("uci"@ != "analyse"@) by { if "uci"@.len() == "analyse"@.len() { assert("uci"@[0] != "analyse"@[0] || "uci"@[1] != "analyse"@[1]); } }
    assert("uci"@ != "isready"@) by { if "uci"@.len() == "isready"@.len() { assert("uci"@[0] != "isready"@[0] || "uci"@[1] != "isready"@[1]); } }
    assert("uci"@ != "quit"@) by { if "uci"@.len() == "quit"@.len() { assert("uci"@[0] != "quit"@[0] || "uci"@[1] != "quit"@[1]); } }
    assert("uci"@ != "stop"@) by { if "uci"@.len() == "stop"@.len() { assert("uci"@[0] != "stop"@[0] || "uci"@[1] != "stop"@[1]); } }
    assert("uci"@ != "show"@) by { if "uci"@.len() == "show"@.len() { assert("uci"@[0] != "show"@[0] || "uci"@[1] != "show"@[1]); } }
    assert("ucinewgame"@ != "analyse"@) by { if "ucinewgame"@.len() == "analyse"@.len() { assert("ucinewgame"@[0] != "analyse"@[0] || "ucinewgame"@[1] != "analyse"@[1]); } }
    assert("ucinewgame"@ != "isready"@) by { if "ucinewgame"@.len() == "isready"@.len() { assert("ucinewgame"@[0] != "isready"@[0] || "ucinewgame"@[1] != "isready"@[1]); } }
    assert("ucinewgame"@ != "quit"@) by { if "ucinewgame"@.len() == "quit"@.len() { assert("ucinewgame"@[0] != "quit"@[0] || "ucinewgame"@[1] != "quit"@[1]); } }
    assert("ucinewgame"@ != "stop"@) by { if "ucinewgame"@.len() == "stop"@.len() { assert("ucinewgame"@[0] != "stop"@[0] || "ucinewgame"@[1] != "stop"@[1]); } }
    assert("ucinewgame"@ != "show"@) by { if "ucinewgame"@.len() == "show"@.len() { assert("ucinewgame"@[0] != "show"@[0] || "ucinewgame"@[1] != "show"@[1]); } }
    assert("analyse"@ != "isready"@) by { if "analyse"@.len() == "isready"@.len() { assert("analyse"@[0] != "isready"@[0] || "analyse"@[1] != "isready"@[1]); } }
    assert("analyse"@ != "quit"@) by { if "analyse"@.len() == "quit"@.len() { assert("analyse"@[0] != "quit"@[0] || "analyse"@[1] != "quit"@[1]); } }
    assert("analyse"@ != "stop"@) by { if "analyse"@.len() == "stop"@.len() { assert("analyse"@[0] != "stop"@[0] || "analyse"@[1] != "stop"@[1]); } }
    assert("analyse"@ != "show"@) by { if "analyse"@.len() == "show"@.len() { assert("analyse"@[0] != "show"@[0] || "analyse"@[1] != "show"@[1]); } }
    assert("isready"@ != "quit"@) by { if "isready"@.len() == "quit"@.len() { assert("isready"@[0] != "quit"@[0] || "isready"@[1] != "quit"@[1]); } }
    assert("isready"@ != "stop"@) by { if "isready"@.len() == "stop"@.len() { assert("isready"@[0] != "stop"@[0] || "isready"@[1] != "stop"@[1]); } }
    assert("isready"@ != "show"@) by { if "isready"@.len() == "show"@.len() { assert("isready"@[0] != "show"@[0] || "isready"@[1] != "show"@[1]); } }
    assert("quit"@ != "stop"@) by { if "quit"@.len() == "stop"@.len() { assert("quit"@[0] != "stop"@[0] || "quit"@[1] != "stop"@[1]); } }
    assert("quit"@ != "show"@) by { if "quit"@.len() == "show"@.len() { assert("quit"@[0] != "show"@[0] || "quit"@[1] != "show"@[1]); } }
    assert("stop"@ != "show"@) by { if "stop"@.len() == "show"@.len() { assert("stop"@[0] != "show"@[0] || "stop"@[1] != "show"@[1]); } }
    assert("debug"@ != "uci"@) by { if "debug"@.len() == "uci"@.len() { assert("debug"@[0] != "uci"@[0] || "debug"@[1] != "uci"@[1]); } }
    assert("debug"@ != "ucinewgame"@) by { if "debug"@.len() == "ucinewgame"@.len() { assert("debug"@[0] != "ucinewgame"@[0] || "debug"@[1] != "ucinewgame"@[1]); } }
    assert("debug"@ != "analyse"@) by { if "debug"@.len() == "analyse"@.len() { assert("debug"@[0] != "analyse"@[0] || "debug"@[1] != "analyse"@[1]); } }
    assert("debug"@ != "isready"@) by { if "debug"@.len() == "isready"@.len() { assert("debug"@[0] != "isready"@[0] || "debug"@[1] != "isready"@[1]); } }
    assert("debug"@ != "quit"@) by { if "debug"@.len() == "quit"@.len() { assert("debug"@[0] != "quit"@[0] || "debug"@[1] != "quit"@[1]); } }
    assert("debug"@ != "stop"@) by { if "debug"@.len() == "stop"@.len() { assert("debug"@[0] != "stop"@[0] || "debug"@[1] != "stop"@[1]); } }
    assert("debug"@ != "show"@) by { if "debug"@.len() == "show"@.len() { assert("debug"@[0] != "show"@[0] || "debug"@[1] != "show"@[1]); } }
    assert("position"@ != "uci"@) by { if "position"@.len() == "uci"@.len() { assert("position"@[0] != "uci"@[0] || "position"@[1] != "uci"@[1]); } }
    assert("position"@ != "ucinewgame"@) by { if "position"@.len() == "ucinewgame"@.len() { assert("position"@[0] != "ucinewgame"@[0] || "position"@[1] != "ucinewgame"@[1]); } }
    assert("position"@ != "analyse"@) by { if "position"@.len() == "analyse"@.len() { assert("position"@[0] != "analyse"@[0] || "position"@[1] != "analyse"@[1]); } }
    assert("position"@ != "isready"@) by { if "position"@.len() == "isready"@.len() { assert("position"@[0] != "isready"@[0] || "position"@[1] != "isready"@[1]); } }
    assert("position"@ != "quit"@) by { if "position"@.len() == "quit"@.len() { assert("position"@[0] != "quit"@[0] || "position"@[1] != "quit"@[1]); } }
    assert("position"@ != "stop"@) by { if "position"@.len() == "stop"@.len() { assert("position"@[0] != "stop"@[0] || "position"@[1] != "stop"@[1]); } }
    assert("position"@ != "show"@) by { if "position"@.len() == "show"@.len() { assert("position"@[0] != "show"@[0] || "position"@[1] != "show"@[1]); } }
    assert("position"@ != "debug"@) by { if "position"@.len() == "debug"@.len() { assert("position"@[0] != "debug"@[0] || "position"@[1] != "debug"@[1]); } }
    assert("go"@ != "uci"@) by { if "go"@.len() == "uci"@.len() { assert("go"@[0] != "uci"@[0] || "go"@[1] != "uci"@[1]); } }
    assert("go"@ != "ucinewgame"@) by { if "go"@.len() == "ucinewgame"@.len() { assert("go"@[0] != "ucinewgame"@[0] || "go"@[1] != "ucinewgame"@[1]); } }
    assert("go"@ != "analyse"@) by { if "go"@.len() == "analyse"@.len() { assert("go"@[0] != "analyse"@[0] || "go"@[1] != "analyse"@[1]); } }
    assert("go"@ != "isready"@) by { if "go"@.len() == "isready"@.len() { assert("go"@[0] != "isready"@[0] || "go"@[1] != "isready"@[1]); } }
    assert("go"@ != "quit"@) by { if "go"@.len() == "quit"@.len() { assert("go"@[0] != "quit"@[0] || "go"@[1] != "quit"@[1]); } }
    assert("go"@ != "stop"@) by { if "go"@.len() == "stop"@.len() { assert("go"@[0] != "stop"@[0] || "go"@[1] != "stop"@[1]); } }
    assert("go"@ != "show"@) by { if "go"@.len() == "show"@.len() { assert("go"@[0] != "show"@[0] || "go"@[1] != "show"@[1]); } }
    assert("go"@ != "debug"@) by { if "go"@.len() == "debug"@.len() { assert("go"@[0] != "debug"@[0] || "go"@[1] != "debug"@[1]); } }
    assert("go"@ != "position"@) by { if "go"@.len() == "position"@.len() { assert("go"@[0] != "position"@[0] || "go"@[1] != "position"@[1]); } }
    assert("setoption"@ != "uci"@) by { if "setoption"@.len() == "uci"@.len() { assert("setoption"@[0] != "uci"@[0] || "setoption"@[1] != "uci"@[1]); } }
    assert("setoption"@ != "ucinewgame"@) by { if "setoption"@.len() == "ucinewgame"@.len() { assert("setoption"@[0] != "ucinewgame"@[0] || "setoption"@[1] != "ucinewgame"@[1]); } }
    assert("setoption"@ != "analyse"@) by { if "setoption"@.len() == "analyse"@.len() { assert("setoption"@[0] != "analyse"@[0] || "setoption"@[1] != "analyse"@[1]); } }
    assert("setoption"@ != "isready"@) by { if "setoption"@.len() == "isready"@.len() { assert("setoption"@[0] != "isready"@[0] || "setoption"@[1] != "isready"@[1]); } }
    assert("setoption"@ != "quit"@) by { if "setoption"@.len() == "quit"@.len() { assert("setoption"@[0] != "quit"@[0] || "setoption"@[1] != "quit"@[1]); } }
    assert("setoption"@ != "stop"@) by { if "setoption"@.len() == "stop"@.len() { assert("setoption"@[0] != "stop"@[0] || "setoption"@[1] != "stop"@[1]); } }
    assert("setoption"@ != "show"@) by { if "setoption"@.len() == "show"@.len() { assert("setoption"@[0] != "show"@[0] || "setoption"@[1] != "show"@[1]); } }
    assert("setoption"@ != "debug"@) by { if "setoption"@.len() == "debug"@.len() { assert("setoption"@[0] != "debug"@[0] || "setoption"@[1] != "debug"@[1]); } }
    assert("setoption"@ != "position"@) by { if "setoption"@.len() == "position"@.len() { assert("setoption"@[0] != "position"@[0] || "setoption"@[1] != "position"@[1]); } }
    assert("setoption"@ != "go"@) by { if "setoption"@.len() == "go"@.len() { assert("setoption"@[0] != "go"@[0] || "setoption"@[1] != "go"@[1]); } }
}

/// The command that a command without arguments names.
pub open spec fn plain_command(w: Seq<char>, c: UCICommand) -> bool {
    &&& w == "uci"@ ==> c is UCI
    &&& w == "ucinewgame"@ ==> c is UCINewGame
    &&& w == "analyse"@ ==> c is Analyse
    &&& w == "isready"@ ==> c is IsReady
    &&& w == "quit"@ ==> c is Quit
    &&& w == "stop"@ ==> c is Stop
    &&& w == "show"@ ==> c is Show
}

/// Reads one line of input into a command.
pub fn parse_command(line: &str) -> (r: Result<UCICommand, UCIError>)
    ensures
        words(line@).len() == 0 ==> (r matches Err(e) && is_not_enough(e, line@)),
        words(line@).len() > 0 ==> ({
            let t = words(line@);
            let w = t[0];
            &&& r matches Ok(c) ==> plain_command(w, c)
            &&& (w == "uci"@ || w == "ucinewgame"@ || w == "analyse"@ || w == "isready"@ || w
                == "quit"@ || w == "stop"@ || w == "show"@) ==> r is Ok
            &&& w == "debug"@ ==> match debug_token_outcome(t, 1) {
                Parsed::Done(b, _) => r matches Ok(UCICommand::Debug(x)) && x@ == b,
                o => r matches Err(e) && error_holds(e, o, line@),
            }
            &&& w == "position"@ ==> match position_command_outcome(t, 1) {
                Parsed::Done(c, _) => r matches Ok(UCICommand::Position(x)) && x@ == c,
                o => r matches Err(e) && error_holds(e, o, line@),
            }
            &&& w == "go"@ ==> match go_command_outcome(t, 1) {
                Parsed::Done(c, _) => r matches Ok(UCICommand::Go(x)) && x@ == c,
                o => r matches Err(e) && error_holds(e, o, line@),
            }
            &&& w == "setoption"@ ==> match set_option_command_outcome(t, 1) {
                Parsed::Done(c, _) => r matches Ok(UCICommand::SetOption(x)) && x@ == c,
                o => r matches Err(e) && error_holds(e, o, line@),
            }
            &&& !is_parsed_word(w) ==> (r matches Err(e) && is_unknown(e, line@))
        }),
{
    proof {
        lemma_plain_words();
    }
    let mut tokens = TokenStream::new(line);
    if !tokens.has_next() {
        return Err(UCIError::NotEnoughArguments(NotEnoughArguments::new(line)));
    }
    tokens.pos = 1;
    if chars_are(&tokens.tokens[0], "uci") {
        Ok(UCICommand::UCI)
    } else if chars_are(&tokens.tokens[0], "ucinewgame") {
        Ok(UCICommand::UCINewGame)
    } else if chars_are(&tokens.tokens[0], "analyse") {
        Ok(UCICommand::Analyse)
    } else if chars_are(&tokens.tokens[0], "debug") {
        match DebugCommand::parse(line, &mut tokens) {
            Ok(c) => Ok(UCICommand::Debug(c)),
            Err(e) => Err(e),
        }
    } else if chars_are(&tokens.tokens[0], "isready") {
        Ok(UCICommand::IsReady)
    } else if chars_are(&tokens.tokens[0], "quit") {
        Ok(UCICommand::Quit)
    } else if chars_are(&tokens.tokens[0], "stop") {
        Ok(UCICommand::Stop)
    } else if chars_are(&tokens.tokens[0], "position") {
        match PositionCommand::parse(line, &mut tokens) {
            Ok(c) => Ok(UCICommand::Position(c)),
            Err(e) => Err(e),
        }
    } else if chars_are(&tokens.tokens[0], "go") {
        match GoCommand::parse(line, &mut tokens) {
            Ok(c) => Ok(UCICommand::Go(c)),
            Err(e) => Err(e),
        }
    } else if chars_are(&tokens.tokens[0], "show") {
        Ok(UCICommand::Show)
    } else if chars_are(&tokens.tokens[0], "setoption") {
        match SetOptionCommand::parse(line, &mut tokens) {
            Ok(c) => Ok(UCICommand::SetOption(c)),
            Err(e) => Err(e),
        }
    } else {
        Err(UCIError::UnknownCommand(UnknownCommand::new(line)))
    }
}

} // verus!