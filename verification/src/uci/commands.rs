use vstd::prelude::*;

use crate::board::STARTPOS_FEN;
use crate::text::{
    chars_are, chars_to_string, digits_value, is_digit_spec, is_unsigned_text, parse_u8, parse_usize, push_chars,
    split_words, str_to_chars, string_views, unsigned_digits, views, words,
};

use super::error::{is_invalid, is_not_enough, InvalidArgument, NotEnoughArguments, UCIError};

verus! {

/// The words of a command line, and how many of them have been read.
pub struct TokenStream {
    pub tokens: Vec<Vec<char>>,
    pub pos: usize,
}

impl TokenStream {
    pub open spec fn toks(&self) -> Seq<Seq<char>> {
        views(self.tokens@)
    }

    pub open spec fn wf(&self) -> bool {
        self.pos <= self.tokens.len()
    }

    /// The words of `line`, none of them read yet.
    pub fn new(line: &str) -> (r: Self)
        ensures
            r.wf(),
            r.pos == 0,
            r.toks() == words(line@),
    {
        let cs = str_to_chars(line);
        TokenStream { tokens: split_words(&cs), pos: 0 }
    }

    /// Whether a word is left to read.
    pub fn has_next(&self) -> (r: bool)
        ensures
            r == (self.pos < self.tokens.len()),
    {
        self.pos < self.tokens.len()
    }
}

/// What reading from a token stream gives: a value and the position after it, or an error.
pub ghost enum Parsed<M> {
    Done(M, int),
    NotEnough,
    Invalid(Seq<char>),
    BadNumber,
}

/// `r`, returned by a parser of the command line `cmd` that left the stream at `end`, is the
/// outcome `o`.
pub open spec fn outcome_holds<T: View>(
    r: Result<T, UCIError>,
    o: Parsed<T::V>,
    cmd: Seq<char>,
    end: int,
) -> bool {
    match o {
        Parsed::Done(m, q) => r matches Ok(x) && x@ == m && end == q,
        Parsed::NotEnough => r matches Err(e) && is_not_enough(e, cmd),
        Parsed::Invalid(a) => r matches Err(e) && is_invalid(e, a),
        Parsed::BadNumber => r matches Err(e) && e is ParseIntError,
    }
}

/// The text of the error for an argument that is not understood.
pub open spec fn not_valid(t: Seq<char>) -> Seq<char> {
    seq!['\''] + t + "' is not a valid argument"@
}

fn not_valid_error(t: &Vec<char>) -> (e: UCIError)
    ensures
        is_invalid(e, not_valid(t@)),
{
    let mut msg: Vec<char> = Vec::new();
    msg.push('\'');
    push_chars(&mut msg, t);
    crate::text::push_str(&mut msg, "' is not a valid argument");
    proof {
        assert(msg@ =~= not_valid(t@));
    }
    let s = chars_to_string(&msg);
    UCIError::InvalidArgument(InvalidArgument { argument: s })
}

/// The words that end a run of arguments.
pub enum TokenSet {
    Position,
    Go,
    SetOption,
}

pub open spec fn is_position_word(t: Seq<char>) -> bool {
    t == "fen"@ || t == "startpos"@ || t == "moves"@
}

pub open spec fn is_go_word(t: Seq<char>) -> bool {
    ||| t == "searchmoves"@
    ||| t == "ponder"@
    ||| t == "wtime"@
    ||| t == "btime"@
    ||| t == "winc"@
    ||| t == "binc"@
    ||| t == "movestogo"@
    ||| t == "depth"@
    ||| t == "nodes"@
    ||| t == "movetime"@
    ||| t == "infinite"@
}

pub open spec fn is_set_option_word(t: Seq<char>) -> bool {
    t == "name"@ || t == "value"@
}

pub open spec fn in_token_set(set: TokenSet, t: Seq<char>) -> bool {
    match set {
        TokenSet::Position => is_position_word(t),
        TokenSet::Go => is_go_word(t),
        TokenSet::SetOption => is_set_option_word(t),
    }
}

fn position_word(t: &Vec<char>) -> (r: bool)
    ensures
        r == is_position_word(t@),
{
    chars_are(t, "fen") || chars_are(t, "startpos") || chars_are(t, "moves")
}

fn go_word(t: &Vec<char>) -> (r: bool)
    ensures
        r == is_go_word(t@),
{
    chars_are(t, "searchmoves") || chars_are(t, "ponder") || chars_are(t, "wtime") || chars_are(
        t,
        "btime",
    ) || chars_are(t, "winc") || chars_are(t, "binc") || chars_are(t, "movestogo") || chars_are(
        t,
        "depth",
    ) || chars_are(t, "nodes") || chars_are(t, "movetime") || chars_are(t, "infinite")
}

fn set_option_word(t: &Vec<char>) -> (r: bool)
    ensures
        r == is_set_option_word(t@),
{
    chars_are(t, "name") || chars_are(t, "value")
}

fn in_set(set: &TokenSet, t: &Vec<char>) -> (r: bool)
    ensures
        r == in_token_set(*set, t@),
{
    match set {
        TokenSet::Position => position_word(t),
        TokenSet::Go => go_word(t),
        TokenSet::SetOption => set_option_word(t),
    }
}

/// The position of the first word from `i` on that is in `set`, or the end.
pub open spec fn run_end(t: Seq<Seq<char>>, i: int, set: TokenSet) -> int
    decreases t.len() - i,
{
    if i >= t.len() {
        t.len() as int
    } else if in_token_set(set, t[i]) {
        i
    } else {
        run_end(t, i + 1, set)
    }
}

/// The position after reading the words from `i` up to a word of `set`, that word included.
pub open spec fn past_run(t: Seq<Seq<char>>, i: int, set: TokenSet) -> int {
    if run_end(t, i, set) < t.len() {
        run_end(t, i, set) + 1
    } else {
        t.len() as int
    }
}

/// Reads the words up to the first one in `set`, which stays unread.
fn collect_run(tokens: &mut TokenStream, set: &TokenSet) -> (r: Vec<String>)
    requires
        old(tokens).wf(),
    ensures
        final(tokens).wf(),
        final(tokens).tokens@ == old(tokens).tokens@,
        final(tokens).pos == run_end(old(tokens).toks(), old(tokens).pos as int, *set),
        final(tokens).pos >= old(tokens).pos,
        string_views(r@) == old(tokens).toks().subrange(
            old(tokens).pos as int,
            run_end(old(tokens).toks(), old(tokens).pos as int, *set),
        ),
{
    let ghost t = tokens.toks();
    let ghost orig = tokens.tokens@;
    let ghost p0 = tokens.pos as int;
    let mut r: Vec<String> = Vec::new();
    while tokens.pos < tokens.tokens.len() && !in_set(set, &tokens.tokens[tokens.pos])
        invariant
            tokens.wf(),
            tokens.tokens@ == orig,
            t == views(orig),
            t.len() == orig.len(),
            0 <= p0 <= tokens.pos,
            run_end(t, tokens.pos as int, *set) == run_end(t, p0, *set),
            string_views(r@) == t.subrange(p0, tokens.pos as int),
        decreases tokens.tokens.len() - tokens.pos,
    {
        let s = chars_to_string(&tokens.tokens[tokens.pos]);
        let ghost before = r@;
        r.push(s);
        proof {
            assert(string_views(r@) =~= string_views(before).push(s@));
            assert(t.subrange(p0, tokens.pos + 1) =~= t.subrange(p0, tokens.pos as int).push(
                t[tokens.pos as int],
            ));
        }
        tokens.pos = tokens.pos + 1;
    }
    r
}

/// Reads the words up to the first one in `set`; unlike `collect_run`, that word is read too
/// and dropped, as `take_while` on the stream does.
fn take_run(tokens: &mut TokenStream, set: &TokenSet) -> (r: Vec<String>)
    requires
        old(tokens).wf(),
    ensures
        final(tokens).wf(),
        final(tokens).tokens@ == old(tokens).tokens@,
        final(tokens).pos == past_run(old(tokens).toks(), old(tokens).pos as int, *set),
        final(tokens).pos >= old(tokens).pos,
        string_views(r@) == old(tokens).toks().subrange(
            old(tokens).pos as int,
            run_end(old(tokens).toks(), old(tokens).pos as int, *set),
        ),
{
    let r = collect_run(tokens, set);
    if tokens.pos < tokens.tokens.len() {
        tokens.pos = tokens.pos + 1;
    }
    r
}

/// Reads the words up to the first one that `condition` names; that word stays unread.
pub fn collect_until(tokens: &mut TokenStream, condition: &TokenSet) -> (r: Vec<String>)
    requires
        old(tokens).wf(),
    ensures
        final(tokens).wf(),
        final(tokens).tokens@ == old(tokens).tokens@,
        final(tokens).pos == run_end(old(tokens).toks(), old(tokens).pos as int, *condition),
        final(tokens).pos >= old(tokens).pos,
        string_views(r@) == old(tokens).toks().subrange(
            old(tokens).pos as int,
            run_end(old(tokens).toks(), old(tokens).pos as int, *condition),
        ),
{
    collect_run(tokens, condition)
}

/// The words joined by single spaces.
pub open spec fn join_words(w: Seq<Seq<char>>) -> Seq<char>
    decreases w.len(),
{
    if w.len() == 0 {
        seq![]
    } else if w.len() == 1 {
        w[0]
    } else {
        join_words(w.drop_last()) + seq![' '] + w.last()
    }
}

/// Reads up to `n` words and joins them by single spaces.
fn take_joined(tokens: &mut TokenStream, n: usize) -> (r: String)
    requires
        old(tokens).wf(),
    ensures
        final(tokens).wf(),
        final(tokens).tokens@ == old(tokens).tokens@,
        final(tokens).pos == if old(tokens).pos + n <= old(tokens).tokens.len() {
            old(tokens).pos + n
        } else {
            old(tokens).tokens.len() as int
        },
        r@ == join_words(old(tokens).toks().subrange(old(tokens).pos as int, final(tokens).pos as int)),
{
    let ghost t = tokens.toks();
    let ghost orig = tokens.tokens@;
    let ghost p0 = tokens.pos as int;
    let mut out: Vec<char> = Vec::new();
    let mut k: usize = 0;
    proof {
        assert(t.subrange(p0, p0) =~= Seq::<Seq<char>>::empty());
    }
    while k < n && tokens.pos < tokens.tokens.len()
        invariant
            tokens.wf(),
            tokens.tokens@ == orig,
            t == views(orig),
            t.len() == orig.len(),
            0 <= p0,
            tokens.pos == p0 + k,
            k <= n,
            out@ == join_words(t.subrange(p0, tokens.pos as int)),
        decreases n - k,
    {
        let ghost w = t.subrange(p0, tokens.pos + 1);
        proof {
            assert(w.drop_last() =~= t.subrange(p0, tokens.pos as int));
            assert(w.last() == t[tokens.pos as int]);
        }
        if k > 0 {
            out.push(' ');
        }
        push_chars(&mut out, &tokens.tokens[tokens.pos]);
        proof {
            if k == 0 {
                assert(w.len() == 1);
                assert(out@ =~= w[0]);
            } else {
                assert(out@ =~= join_words(w.drop_last()) + seq![' '] + w.last());
            }
        }
        tokens.pos = tokens.pos + 1;
        k = k + 1;
    }
    chars_to_string(&out)
}

/// A debug switch.
pub enum DebugToken {
    On,
    Off,
}

impl View for DebugToken {
    type V = bool;

    open spec fn view(&self) -> bool {
        *self is On
    }
}

/// What reading a debug switch at `p` gives: whether it is on.
pub open spec fn debug_token_outcome(t: Seq<Seq<char>>, p: int) -> Parsed<bool> {
    if p >= t.len() {
        Parsed::NotEnough
    } else if t[p] == "on"@ {
        Parsed::Done(true, p + 1)
    } else if t[p] == "off"@ {
        Parsed::Done(false, p + 1)
    } else {
        Parsed::Invalid("{} is not a valid argument"@)
    }
}

impl DebugToken {
    pub fn parse(command: &str, tokens: &mut TokenStream) -> (r: Result<DebugToken, UCIError>)
        requires
            old(tokens).wf(),
        ensures
            final(tokens).wf(),
            final(tokens).tokens@ == old(tokens).tokens@,
            outcome_holds(
                r,
                debug_token_outcome(old(tokens).toks(), old(tokens).pos as int),
                command@,
                final(tokens).pos as int,
            ),
    {
        if tokens.pos >= tokens.tokens.len() {
            return Err(UCIError::NotEnoughArguments(NotEnoughArguments::new(command)));
        }
        let i = tokens.pos;
        tokens.pos = i + 1;
        if chars_are(&tokens.tokens[i], "on") {
            Ok(DebugToken::On)
        } else if chars_are(&tokens.tokens[i], "off") {
            Ok(DebugToken::Off)
        } else {
            Err(UCIError::InvalidArgument(InvalidArgument::new("{} is not a valid argument")))
        }
    }
}

/// The `debug` command: whether debug output is wanted.
pub struct DebugCommand {
    pub state: bool,
}

impl View for DebugCommand {
    type V = bool;

    open spec fn view(&self) -> bool {
        self.state
    }
}

impl DebugCommand {
    pub fn parse(command: &str, tokens: &mut TokenStream) -> (r: Result<Self, UCIError>)
        requires
            old(tokens).wf(),
        ensures
            final(tokens).wf(),
            final(tokens).tokens@ == old(tokens).tokens@,
            outcome_holds(
                r,
                debug_token_outcome(old(tokens).toks(), old(tokens).pos as int),
                command@,
                final(tokens).pos as int,
            ),
    {
        match DebugToken::parse(command, tokens) {
            Ok(DebugToken::On) => Ok(DebugCommand { state: true }),
            Ok(DebugToken::Off) => Ok(DebugCommand { state: false }),
            Err(e) => Err(e),
        }
    }
}

/// An argument of the `position` command.
pub enum PositionToken {
    Fen(String),
    Moves(Vec<String>),
}

/// The model of a `position` argument.
pub ghost enum PositionTokenView {
    Fen(Seq<char>),
    Moves(Seq<Seq<char>>),
}

impl View for PositionToken {
    type V = PositionTokenView;

    open spec fn view(&self) -> PositionTokenView {
        match self {
            PositionToken::Fen(f) => PositionTokenView::Fen(f@),
            PositionToken::Moves(m) => PositionTokenView::Moves(string_views(m@)),
        }
    }
}

/// The smaller of `a` and `b`.
pub open spec fn min_int(a: int, b: int) -> int {
    if a <= b {
        a
    } else {
        b
    }
}

/// What reading a `position` argument at `p` gives.
pub open spec fn position_token_outcome(t: Seq<Seq<char>>, p: int) -> Parsed<PositionTokenView> {
    if p >= t.len() {
        Parsed::NotEnough
    } else if t[p] == "fen"@ {
        let q = min_int(p + 7, t.len() as int);
        Parsed::Done(PositionTokenView::Fen(join_words(t.subrange(p + 1, q))), q)
    } else if t[p] == "startpos"@ {
        Parsed::Done(PositionTokenView::Fen(STARTPOS_FEN@), p + 1)
    } else if t[p] == "moves"@ {
        Parsed::Done(
            PositionTokenView::Moves(t.subrange(p + 1, run_end(t, p + 1, TokenSet::Position))),
            past_run(t, p + 1, TokenSet::Position),
        )
    } else {
        Parsed::Invalid(not_valid(t[p]))
    }
}

impl PositionToken {
    pub fn is_token(input: &str) -> (r: bool)
        ensures
            r == is_position_word(input@),
    {
        let cs = str_to_chars(input);
        position_word(&cs)
    }

    pub fn parse(command: &str, tokens: &mut TokenStream) -> (r: Result<PositionToken, UCIError>)
        requires
            old(tokens).wf(),
        ensures
            final(tokens).wf(),
            final(tokens).tokens@ == old(tokens).tokens@,
            old(tokens).pos >= old(tokens).tokens.len() ==> final(tokens).pos == old(tokens).pos,
            outcome_holds(
                r,
                position_token_outcome(old(tokens).toks(), old(tokens).pos as int),
                command@,
                final(tokens).pos as int,
            ),
    {
        if tokens.pos >= tokens.tokens.len() {
            return Err(UCIError::NotEnoughArguments(NotEnoughArguments::new(command)));
        }
        let i = tokens.pos;
        tokens.pos = i + 1;
        if chars_are(&tokens.tokens[i], "fen") {
            let fen = take_joined(tokens, 6);
            Ok(PositionToken::Fen(fen))
        } else if chars_are(&tokens.tokens[i], "startpos") {
            Ok(PositionToken::Fen(STARTPOS_FEN.to_owned()))
        } else if chars_are(&tokens.tokens[i], "moves") {
            let moves = take_run(tokens, &TokenSet::Position);
            Ok(PositionToken::Moves(moves))
        } else {
            Err(not_valid_error(&tokens.tokens[i]))
        }
    }
}

/// The `position` command: a position in FEN and the moves played from it.
pub struct PositionCommand {
    pub fen: String,
    pub moves: Vec<String>,
}

/// The model of a `position` command.
pub ghost struct PositionCommandView {
    pub fen: Seq<char>,
    pub moves: Seq<Seq<char>>,
}

impl View for PositionCommand {
    type V = PositionCommandView;

    open spec fn view(&self) -> PositionCommandView {
        PositionCommandView { fen: self.fen@, moves: string_views(self.moves@) }
    }
}

/// What reading a `position` command's arguments at `p` gives: a FEN (or `startpos`), then
/// optionally the moves; a missing second argument means no moves.
pub open spec fn position_command_outcome(t: Seq<Seq<char>>, p: int) -> Parsed<PositionCommandView> {
    match position_token_outcome(t, p) {
        Parsed::Done(PositionTokenView::Fen(f), q) => match position_token_outcome(t, q) {
            Parsed::Done(PositionTokenView::Moves(m), q2) => Parsed::Done(
                PositionCommandView { fen: f, moves: m },
                q2,
            ),
            Parsed::Done(PositionTokenView::Fen(_), q2) => Parsed::Done(
                PositionCommandView { fen: f, moves: seq![] },
                q2,
            ),
            Parsed::NotEnough => Parsed::Done(PositionCommandView { fen: f, moves: seq![] }, q),
            Parsed::Invalid(a) => Parsed::Invalid(a),
            Parsed::BadNumber => Parsed::BadNumber,
        },
        Parsed::Done(PositionTokenView::Moves(_), _) => Parsed::Invalid(
            "Expected 'fen' or 'startpos'"@,
        ),
        Parsed::NotEnough => Parsed::NotEnough,
        Parsed::Invalid(a) => Parsed::Invalid(a),
        Parsed::BadNumber => Parsed::BadNumber,
    }
}

impl PositionCommand {
    pub fn parse(command: &str, tokens: &mut TokenStream) -> (r: Result<Self, UCIError>)
        requires
            old(tokens).wf(),
        ensures
            final(tokens).wf(),
            final(tokens).tokens@ == old(tokens).tokens@,
            outcome_holds(
                r,
                position_command_outcome(old(tokens).toks(), old(tokens).pos as int),
                command@,
                final(tokens).pos as int,
            ),
    {
        let ghost t = tokens.toks();
        let ghost p = tokens.pos as int;
        let first = PositionToken::parse(command, tokens);
        let fen = match first {
            Ok(PositionToken::Fen(fen)) => fen,
            Ok(PositionToken::Moves(_)) => {
                return Err(
                    UCIError::InvalidArgument(InvalidArgument::new("Expected 'fen' or 'startpos'")),
                );
            },
            Err(e) => {
                return Err(e);
            },
        };
        let ghost q = tokens.pos as int;
        assert(position_token_outcome(t, p) == Parsed::Done(PositionTokenView::Fen(fen@), q));
        let second = PositionToken::parse(command, tokens);
        let moves = match second {
            Ok(PositionToken::Moves(moves)) => moves,
            Ok(PositionToken::Fen(_)) => Vec::new(),
            Err(UCIError::NotEnoughArguments(_)) => Vec::new(),
            Err(e) => {
                return Err(e);
            },
        };
        proof {
            assert(string_views(Seq::<String>::empty()) =~= Seq::<Seq<char>>::empty());
        }
        Ok(PositionCommand { fen, moves })
    }
}

/// An argument of the `go` command.
pub enum GoToken {
    SearchMoves(Vec<String>),
    Ponder,
    WhiteTime(usize),
    BlackTime(usize),
    WhiteIncrement(usize),
    BlackIncrement(usize),
    MovesToGo(usize),
    Depth(u8),
    Nodes(usize),
    MoveTime(usize),
    Infinite,
}

/// The model of a `go` argument.
pub ghost enum GoTokenView {
    SearchMoves(Seq<Seq<char>>),
    Ponder,
    WhiteTime(nat),
    BlackTime(nat),
    WhiteIncrement(nat),
    BlackIncrement(nat),
    MovesToGo(nat),
    Depth(nat),
    Nodes(nat),
    MoveTime(nat),
    Infinite,
}

impl View for GoToken {
    type V = GoTokenView;

    open spec fn view(&self) -> GoTokenView {
        match self {
            GoToken::SearchMoves(m) => GoTokenView::SearchMoves(string_views(m@)),
            GoToken::Ponder => GoTokenView::Ponder,
            GoToken::WhiteTime(n) => GoTokenView::WhiteTime(*n as nat),
            GoToken::BlackTime(n) => GoTokenView::BlackTime(*n as nat),
            GoToken::WhiteIncrement(n) => GoTokenView::WhiteIncrement(*n as nat),
            GoToken::BlackIncrement(n) => GoTokenView::BlackIncrement(*n as nat),
            GoToken::MovesToGo(n) => GoTokenView::MovesToGo(*n as nat),
            GoToken::Depth(n) => GoTokenView::Depth(*n as nat),
            GoToken::Nodes(n) => GoTokenView::Nodes(*n as nat),
            GoToken::MoveTime(n) => GoTokenView::MoveTime(*n as nat),
            GoToken::Infinite => GoTokenView::Infinite,
        }
    }
}

/// What reading a number of at most `max` at `i` gives, wrapped by `f`.
pub open spec fn number_outcome(t: Seq<Seq<char>>, i: int, max: nat, f: spec_fn(nat) -> GoTokenView) -> Parsed<
    GoTokenView,
> {
    if i >= t.len() {
        Parsed::NotEnough
    } else if is_unsigned_text(t[i], max) {
        Parsed::Done(f(digits_value(unsigned_digits(t[i]))), i + 1)
    } else {
        Parsed::BadNumber
    }
}

/// What reading a `go` argument at `p` gives.
pub open spec fn go_token_outcome(t: Seq<Seq<char>>, p: int) -> Parsed<GoTokenView> {
    let big = usize::MAX as nat;
    if p >= t.len() {
        Parsed::NotEnough
    } else if t[p] == "ponder"@ {
        Parsed::Done(GoTokenView::Ponder, p + 1)
    } else if t[p] == "searchmoves"@ {
        Parsed::Done(
            GoTokenView::SearchMoves(t.subrange(p + 1, run_end(t, p + 1, TokenSet::Go))),
            run_end(t, p + 1, TokenSet::Go),
        )
    } else if t[p] == "wtime"@ {
        number_outcome(t, p + 1, big, |n: nat| GoTokenView::WhiteTime(n))
    } else if t[p] == "btime"@ {
        number_outcome(t, p + 1, big, |n: nat| GoTokenView::BlackTime(n))
    } else if t[p] == "winc"@ {
        number_outcome(t, p + 1, big, |n: nat| GoTokenView::WhiteIncrement(n))
    } else if t[p] == "binc"@ {
        number_outcome(t, p + 1, big, |n: nat| GoTokenView::BlackIncrement(n))
    } else if t[p] == "movestogo"@ {
        number_outcome(t, p + 1, big, |n: nat| GoTokenView::MovesToGo(n))
    } else if t[p] == "depth"@ {
        number_outcome(t, p + 1, u8::MAX as nat, |n: nat| GoTokenView::Depth(n))
    } else if t[p] == "nodes"@ {
        number_outcome(t, p + 1, big, |n: nat| GoTokenView::Nodes(n))
    } else if t[p] == "movetime"@ {
        number_outcome(t, p + 1, big, |n: nat| GoTokenView::MoveTime(n))
    } else if t[p] == "infinite"@ {
        Parsed::Done(GoTokenView::Infinite, p + 1)
    } else {
        Parsed::Invalid(not_valid(t[p]))
    }
}

/// Which number a `go` argument carries.
enum NumberKind {
    WhiteTime,
    BlackTime,
    WhiteIncrement,
    BlackIncrement,
    MovesToGo,
    Nodes,
    MoveTime,
}

spec fn number_wrap(k: NumberKind) -> spec_fn(nat) -> GoTokenView {
    match k {
        NumberKind::WhiteTime => |n: nat| GoTokenView::WhiteTime(n),
        NumberKind::BlackTime => |n: nat| GoTokenView::BlackTime(n),
        NumberKind::WhiteIncrement => |n: nat| GoTokenView::WhiteIncrement(n),
        NumberKind::BlackIncrement => |n: nat| GoTokenView::BlackIncrement(n),
        NumberKind::MovesToGo => |n: nat| GoTokenView::MovesToGo(n),
        NumberKind::Nodes => |n: nat| GoTokenView::Nodes(n),
        NumberKind::MoveTime => |n: nat| GoTokenView::MoveTime(n),
    }
}

/// Reads the number of a `go` argument.
fn read_number(command: &str, tokens: &mut TokenStream, kind: NumberKind) -> (r: Result<
    GoToken,
    UCIError,
>)
    requires
        old(tokens).wf(),
    ensures
        final(tokens).wf(),
        final(tokens).tokens@ == old(tokens).tokens@,
        r is Ok ==> final(tokens).pos > old(tokens).pos,
        outcome_holds(
            r,
            number_outcome(
                old(tokens).toks(),
                old(tokens).pos as int,
                usize::MAX as nat,
                number_wrap(kind),
            ),
            command@,
            final(tokens).pos as int,
        ),
{
    if tokens.pos >= tokens.tokens.len() {
        return Err(UCIError::NotEnoughArguments(NotEnoughArguments::new(command)));
    }
    let i = tokens.pos;
    tokens.pos = i + 1;
    let text = chars_to_string(&tokens.tokens[i]);
    match parse_usize(text.as_str()) {
        Ok(n) => Ok(
            match kind {
                NumberKind::WhiteTime => GoToken::WhiteTime(n),
                NumberKind::BlackTime => GoToken::BlackTime(n),
                NumberKind::WhiteIncrement => GoToken::WhiteIncrement(n),
                NumberKind::BlackIncrement => GoToken::BlackIncrement(n),
                NumberKind::MovesToGo => GoToken::MovesToGo(n),
                NumberKind::Nodes => GoToken::Nodes(n),
                NumberKind::MoveTime => GoToken::MoveTime(n),
            },
        ),
        Err(e) => Err(UCIError::ParseIntError(e)),
    }
}

impl GoToken {
    pub fn is_token(input: &str) -> (r: bool)
        ensures
            r == is_go_word(input@),
    {
        let cs = str_to_chars(input);
        go_word(&cs)
    }

    pub fn parse(command: &str, tokens: &mut TokenStream) -> (r: Result<GoToken, UCIError>)
        requires
            old(tokens).wf(),
        ensures
            final(tokens).wf(),
            final(tokens).tokens@ == old(tokens).tokens@,
            r is Ok ==> final(tokens).pos > old(tokens).pos,
            outcome_holds(
                r,
                go_token_outcome(old(tokens).toks(), old(tokens).pos as int),
                command@,
                final(tokens).pos as int,
            ),
    {
        if tokens.pos >= tokens.tokens.len() {
            return Err(UCIError::NotEnoughArguments(NotEnoughArguments::new(command)));
        }
        let i = tokens.pos;
        tokens.pos = i + 1;
        if chars_are(&tokens.tokens[i], "ponder") {
            Ok(GoToken::Ponder)
        } else if chars_are(&tokens.tokens[i], "searchmoves") {
            let moves = collect_until(tokens, &TokenSet::Go);
            Ok(GoToken::SearchMoves(moves))
        } else if chars_are(&tokens.tokens[i], "wtime") {
            read_number(command, tokens, NumberKind::WhiteTime)
        } else if chars_are(&tokens.tokens[i], "btime") {
            read_number(command, tokens, NumberKind::BlackTime)
        } else if chars_are(&tokens.tokens[i], "winc") {
            read_number(command, tokens, NumberKind::WhiteIncrement)
        } else if chars_are(&tokens.tokens[i], "binc") {
            read_number(command, tokens, NumberKind::BlackIncrement)
        } else if chars_are(&tokens.tokens[i], "movestogo") {
            read_number(command, tokens, NumberKind::MovesToGo)
        } else if chars_are(&tokens.tokens[i], "depth") {
            if tokens.pos >= tokens.tokens.len() {
                return Err(UCIError::NotEnoughArguments(NotEnoughArguments::new(command)));
            }
            let j = tokens.pos;
            tokens.pos = j + 1;
            let text = chars_to_string(&tokens.tokens[j]);
            match parse_u8(text.as_str()) {
                Ok(n) => Ok(GoToken::Depth(n)),
                Err(e) => Err(UCIError::ParseIntError(e)),
            }
        } else if chars_are(&tokens.tokens[i], "nodes") {
            read_number(command, tokens, NumberKind::Nodes)
        } else if chars_are(&tokens.tokens[i], "movetime") {
            read_number(command, tokens, NumberKind::MoveTime)
        } else if chars_are(&tokens.tokens[i], "infinite") {
            Ok(GoToken::Infinite)
        } else {
            Err(not_valid_error(&tokens.tokens[i]))
        }
    }
}

/// The `go` command: how to search.
pub struct GoCommand {
    pub search_moves: Vec<String>,
    pub ponder: bool,
    pub white_time: Option<usize>,
    pub black_time: Option<usize>,
    pub white_increment: Option<usize>,
    pub black_increment: Option<usize>,
    pub moves_to_go: Option<usize>,
    pub depth: Option<u8>,
    pub nodes: Option<usize>,
    pub move_time: Option<usize>,
    pub infinite: bool,
}

/// The model of a `go` command.
pub ghost struct GoCommandView {
    pub search_moves: Seq<Seq<char>>,
    pub ponder: bool,
    pub white_time: Option<nat>,
    pub black_time: Option<nat>,
    pub white_increment: Option<nat>,
    pub black_increment: Option<nat>,
    pub moves_to_go: Option<nat>,
    pub depth: Option<nat>,
    pub nodes: Option<nat>,
    pub move_time: Option<nat>,
    pub infinite: bool,
}

pub open spec fn nat_of(o: Option<usize>) -> Option<nat> {
    match o {
        Some(n) => Some(n as nat),
        None => None,
    }
}

pub open spec fn nat_of_u8(o: Option<u8>) -> Option<nat> {
    match o {
        Some(n) => Some(n as nat),
        None => None,
    }
}

impl View for GoCommand {
    type V = GoCommandView;

    open spec fn view(&self) -> GoCommandView {
        GoCommandView {
            search_moves: string_views(self.search_moves@),
            ponder: self.ponder,
            white_time: nat_of(self.white_time),
            black_time: nat_of(self.black_time),
            white_increment: nat_of(self.white_increment),
            black_increment: nat_of(self.black_increment),
            moves_to_go: nat_of(self.moves_to_go),
            depth: nat_of_u8(self.depth),
            nodes: nat_of(self.nodes),
            move_time: nat_of(self.move_time),
            infinite: self.infinite,
        }
    }
}

/// A `go` command with nothing set.
pub open spec fn go_default() -> GoCommandView {
    GoCommandView {
        search_moves: seq![],
        ponder: false,
        white_time: None,
        black_time: None,
        white_increment: None,
        black_increment: None,
        moves_to_go: None,
        depth: None,
        nodes: None,
        move_time: None,
        infinite: false,
    }
}

/// `c` with the argument `tok` set; a later argument replaces an earlier one.
pub open spec fn go_apply(c: GoCommandView, tok: GoTokenView) -> GoCommandView {
    match tok {
        GoTokenView::SearchMoves(m) => GoCommandView { search_moves: m, ..c },
        GoTokenView::Ponder => GoCommandView { ponder: true, ..c },
        GoTokenView::WhiteTime(n) => GoCommandView { white_time: Some(n), ..c },
        GoTokenView::BlackTime(n) => GoCommandView { black_time: Some(n), ..c },
        GoTokenView::WhiteIncrement(n) => GoCommandView { white_increment: Some(n), ..c },
        GoTokenView::BlackIncrement(n) => GoCommandView { black_increment: Some(n), ..c },
        GoTokenView::MovesToGo(n) => GoCommandView { moves_to_go: Some(n), ..c },
        GoTokenView::Depth(n) => GoCommandView { depth: Some(n), ..c },
        GoTokenView::Nodes(n) => GoCommandView { nodes: Some(n), ..c },
        GoTokenView::MoveTime(n) => GoCommandView { move_time: Some(n), ..c },
        GoTokenView::Infinite => GoCommandView { infinite: true, ..c },
    }
}

/// What reading `go` arguments from `p` to the end gives, starting from `acc`.
pub open spec fn go_command_from(t: Seq<Seq<char>>, p: int, acc: GoCommandView) -> Parsed<GoCommandView>
    decreases t.len() - p,
{
    if p >= t.len() {
        Parsed::Done(acc, p)
    } else {
        match go_token_outcome(t, p) {
            Parsed::Done(tok, q) => if p < q <= t.len() {
                go_command_from(t, q, go_apply(acc, tok))
            } else {
                Parsed::Done(acc, p)
            },
            Parsed::NotEnough => Parsed::NotEnough,
            Parsed::Invalid(a) => Parsed::Invalid(a),
            Parsed::BadNumber => Parsed::BadNumber,
        }
    }
}

/// What reading a `go` command's arguments at `p` gives: every word up to the end is read as
/// an argument.
pub open spec fn go_command_outcome(t: Seq<Seq<char>>, p: int) -> Parsed<GoCommandView> {
    go_command_from(t, p, go_default())
}

impl GoCommand {
    pub fn parse(command: &str, tokens: &mut TokenStream) -> (r: Result<Self, UCIError>)
        requires
            old(tokens).wf(),
        ensures
            final(tokens).wf(),
            final(tokens).tokens@ == old(tokens).tokens@,
            outcome_holds(
                r,
                go_command_outcome(old(tokens).toks(), old(tokens).pos as int),
                command@,
                final(tokens).pos as int,
            ),
    {
        let ghost t = tokens.toks();
        let ghost orig = tokens.tokens@;
        let ghost p0 = tokens.pos as int;
        let mut result = GoCommand {
            search_moves: Vec::new(),
            ponder: false,
            white_time: None,
            black_time: None,
            white_increment: None,
            black_increment: None,
            moves_to_go: None,
            depth: None,
            nodes: None,
            move_time: None,
            infinite: false,
        };
        proof {
            assert(string_views(result.search_moves@) =~= Seq::<Seq<char>>::empty());
            assert(result@ == go_default());
        }
        while tokens.has_next()
            invariant
                tokens.wf(),
                tokens.tokens@ == orig,
                orig == old(tokens).tokens@,
                p0 == old(tokens).pos,
                t == views(orig),
                go_command_from(t, tokens.pos as int, result@) == go_command_outcome(t, p0),
            decreases tokens.tokens.len() - tokens.pos,
        {
            let ghost acc = result@;
            match GoToken::parse(command, tokens) {
                Ok(token) => {
                    let ghost tv = token@;
                    match token {
                        GoToken::SearchMoves(moves) => result.search_moves = moves,
                        GoToken::Ponder => result.ponder = true,
                        GoToken::WhiteTime(time) => result.white_time = Some(time),
                        GoToken::BlackTime(time) => result.black_time = Some(time),
                        GoToken::WhiteIncrement(inc) => result.white_increment = Some(inc),
                        GoToken::BlackIncrement(inc) => result.black_increment = Some(inc),
                        GoToken::MovesToGo(moves) => result.moves_to_go = Some(moves),
                        GoToken::Depth(depth) => result.depth = Some(depth),
                        GoToken::Nodes(nodes) => result.nodes = Some(nodes),
                        GoToken::MoveTime(time) => result.move_time = Some(time),
                        GoToken::Infinite => result.infinite = true,
                    }
                    assert(result@ == go_apply(acc, tv));
                },
                Err(e) => {
                    return Err(e);
                },
            }
        }
        Ok(result)
    }
}

/// Joins strings by single spaces.
fn join_strings(v: &Vec<String>) -> (r: String)
    ensures
        r@ == join_words(string_views(v@)),
{
    let ghost w = string_views(v@);
    let mut out: Vec<char> = Vec::new();
    let mut i: usize = 0;
    proof {
        assert(w.subrange(0, 0) =~= Seq::<Seq<char>>::empty());
    }
    while i < v.len()
        invariant
            i <= v.len(),
            w == string_views(v@),
            out@ == join_words(w.subrange(0, i as int)),
        decreases v.len() - i,
    {
        let ghost part = w.subrange(0, i + 1);
        proof {
            assert(part.drop_last() =~= w.subrange(0, i as int));
        }
        if i > 0 {
            out.push(' ');
        }
        crate::text::push_str(&mut out, v[i].as_str());
        proof {
            if i == 0 {
                assert(out@ =~= part[0]);
            } else {
                assert(out@ =~= join_words(part.drop_last()) + seq![' '] + part.last());
            }
        }
        i = i + 1;
    }
    proof {
        assert(w.subrange(0, v.len() as int) =~= w);
    }
    chars_to_string(&out)
}

/// An argument of the `setoption` command.
pub enum SetOptionToken {
    Name(String),
    Value(String),
}

/// The model of a `setoption` argument.
pub ghost enum SetOptionTokenView {
    Name(Seq<char>),
    Value(Seq<char>),
}

impl View for SetOptionToken {
    type V = SetOptionTokenView;

    open spec fn view(&self) -> SetOptionTokenView {
        match self {
            SetOptionToken::Name(n) => SetOptionTokenView::Name(n@),
            SetOptionToken::Value(v) => SetOptionTokenView::Value(v@),
        }
    }
}

/// What reading a `setoption` argument at `p` gives: `name` or `value` and the words up to
/// the next of these, joined by spaces.
pub open spec fn set_option_token_outcome(t: Seq<Seq<char>>, p: int) -> Parsed<SetOptionTokenView> {
    if p >= t.len() {
        Parsed::NotEnough
    } else if t[p] == "name"@ {
        Parsed::Done(
            SetOptionTokenView::Name(join_words(t.subrange(p + 1, run_end(t, p + 1, TokenSet::SetOption)))),
            run_end(t, p + 1, TokenSet::SetOption),
        )
    } else if t[p] == "value"@ {
        Parsed::Done(
            SetOptionTokenView::Value(join_words(t.subrange(p + 1, run_end(t, p + 1, TokenSet::SetOption)))),
            run_end(t, p + 1, TokenSet::SetOption),
        )
    } else {
        Parsed::Invalid(not_valid(t[p]))
    }
}

impl SetOptionToken {
    pub fn is_token(input: &str) -> (r: bool)
        ensures
            r == is_set_option_word(input@),
    {
        let cs = str_to_chars(input);
        set_option_word(&cs)
    }

    pub fn parse(command: &str, tokens: &mut TokenStream) -> (r: Result<SetOptionToken, UCIError>)
        requires
            old(tokens).wf(),
        ensures
            final(tokens).wf(),
            final(tokens).tokens@ == old(tokens).tokens@,
            old(tokens).pos >= old(tokens).tokens.len() ==> final(tokens).pos == old(tokens).pos,
            outcome_holds(
                r,
                set_option_token_outcome(old(tokens).toks(), old(tokens).pos as int),
                command@,
                final(tokens).pos as int,
            ),
    {
        if tokens.pos >= tokens.tokens.len() {
            return Err(UCIError::NotEnoughArguments(NotEnoughArguments::new(command)));
        }
        let i = tokens.pos;
        tokens.pos = i + 1;
        if chars_are(&tokens.tokens[i], "name") {
            let words = collect_until(tokens, &TokenSet::SetOption);
            Ok(SetOptionToken::Name(join_strings(&words)))
        } else if chars_are(&tokens.tokens[i], "value") {
            let words = collect_until(tokens, &TokenSet::SetOption);
            Ok(SetOptionToken::Value(join_strings(&words)))
        } else {
            Err(not_valid_error(&tokens.tokens[i]))
        }
    }
}

/// The `setoption` command: an option's name and, optionally, its value.
pub struct SetOptionCommand {
    pub name: String,
    pub value: Option<String>,
}

/// The model of a `setoption` command.
pub ghost struct SetOptionCommandView {
    pub name: Seq<char>,
    pub value: Option<Seq<char>>,
}

impl View for SetOptionCommand {
    type V = SetOptionCommandView;

    open spec fn view(&self) -> SetOptionCommandView {
        SetOptionCommandView {
            name: self.name@,
            value: match self.value {
                Some(v) => Some(v@),
                None => None,
            },
        }
    }
}

/// What reading a `setoption` command's arguments at `p` gives: a name, then a value if any
/// word is left.
pub open spec fn set_option_command_outcome(t: Seq<Seq<char>>, p: int) -> Parsed<SetOptionCommandView> {
    match set_option_token_outcome(t, p) {
        Parsed::Done(SetOptionTokenView::Name(n), q) => if q < t.len() {
            match set_option_token_outcome(t, q) {
                Parsed::Done(SetOptionTokenView::Value(v), q2) => Parsed::Done(
                    SetOptionCommandView { name: n, value: Some(v) },
                    q2,
                ),
                Parsed::Done(SetOptionTokenView::Name(_), _) => Parsed::Invalid("Expected 'value'"@),
                Parsed::NotEnough => Parsed::NotEnough,
                Parsed::Invalid(a) => Parsed::Invalid(a),
                Parsed::BadNumber => Parsed::BadNumber,
            }
        } else {
            Parsed::Done(SetOptionCommandView { name: n, value: None }, q)
        },
        Parsed::Done(SetOptionTokenView::Value(_), _) => Parsed::Invalid("Expected 'name'"@),
        Parsed::NotEnough => Parsed::NotEnough,
        Parsed::Invalid(a) => Parsed::Invalid(a),
        Parsed::BadNumber => Parsed::BadNumber,
    }
}

impl SetOptionCommand {
    pub fn parse(command: &str, tokens: &mut TokenStream) -> (r: Result<Self, UCIError>)
        requires
            old(tokens).wf(),
        ensures
            final(tokens).wf(),
            final(tokens).tokens@ == old(tokens).tokens@,
            outcome_holds(
                r,
                set_option_command_outcome(old(tokens).toks(), old(tokens).pos as int),
                command@,
                final(tokens).pos as int,
            ),
    {
        let ghost t = tokens.toks();
        let ghost p = tokens.pos as int;
        let name = match SetOptionToken::parse(command, tokens) {
            Ok(SetOptionToken::Name(name)) => name,
            Ok(SetOptionToken::Value(_)) => {
                return Err(UCIError::InvalidArgument(InvalidArgument::new("Expected 'name'")));
            },
            Err(e) => {
                return Err(e);
            },
        };
        let ghost q = tokens.pos as int;
        assert(set_option_token_outcome(t, p) == Parsed::Done(SetOptionTokenView::Name(name@), q));
        let value = if tokens.has_next() {
            match SetOptionToken::parse(command, tokens) {
                Ok(SetOptionToken::Value(value)) => Some(value),
                Ok(SetOptionToken::Name(_)) => {
                    return Err(UCIError::InvalidArgument(InvalidArgument::new("Expected 'value'")));
                },
                Err(e) => {
                    return Err(e);
                },
            }
        } else {
            None
        };
        Ok(SetOptionCommand { name, value })
    }
}

/// No word of `t` from `from` on is `w`.
pub open spec fn word_absent(t: Seq<Seq<char>>, from: int, w: Seq<char>) -> bool {
    forall|j: int| from <= j < t.len() ==> t[j] != w
}

/// The words of `set` read from `i` stop at or before `j`, a word of the set, and go no further
/// than the end.
proof fn lemma_run_end_bound(t: Seq<Seq<char>>, i: int, set: TokenSet, j: int)
    requires
        i <= j < t.len(),
        in_token_set(set, t[j]),
    ensures
        i <= run_end(t, i, set) <= j,
    decreases t.len() - i,
{
    if !in_token_set(set, t[i]) {
        lemma_run_end_bound(t, i + 1, set, j);
    }
}

/// The `go` keywords that take a number.
pub open spec fn is_number_word(w: Seq<char>) -> bool {
    ||| w == "wtime"@
    ||| w == "btime"@
    ||| w == "winc"@
    ||| w == "binc"@
    ||| w == "movestogo"@
    ||| w == "depth"@
    ||| w == "nodes"@
    ||| w == "movetime"@
}

/// The largest number the `go` keyword `w` takes: a depth fits a byte, the others a `usize`.
pub open spec fn number_limit(w: Seq<char>) -> nat {
    if w == "depth"@ {
        u8::MAX as nat
    } else {
        usize::MAX as nat
    }
}

/// The field of a `go` command that the number after the keyword `w` fills: `wtime` White's
/// time, `btime` Black's, `winc` White's increment, `binc` Black's, `movestogo` the moves to
/// the next time control, `depth` the depth, `nodes` the nodes and `movetime` the time for
/// the move.
pub open spec fn number_field(c: GoCommandView, w: Seq<char>) -> Option<nat> {
    if w == "wtime"@ {
        c.white_time
    } else if w == "btime"@ {
        c.black_time
    } else if w == "winc"@ {
        c.white_increment
    } else if w == "binc"@ {
        c.black_increment
    } else if w == "movestogo"@ {
        c.moves_to_go
    } else if w == "depth"@ {
        c.depth
    } else if w == "nodes"@ {
        c.nodes
    } else {
        c.move_time
    }
}

/// The `go` keywords differ in their length or their first letter, which is no digit and no
/// sign.
proof fn lemma_go_words()
    ensures
        "searchmoves"@.len() == 11 && "searchmoves"@[0] == 's',
        "ponder"@.len() == 6 && "ponder"@[0] == 'p',
        "wtime"@.len() == 5 && "wtime"@[0] == 'w',
        "btime"@.len() == 5 && "btime"@[0] == 'b',
        "winc"@.len() == 4 && "winc"@[0] == 'w',
        "binc"@.len() == 4 && "binc"@[0] == 'b',
        "movestogo"@.len() == 9 && "movestogo"@[0] == 'm',
        "depth"@.len() == 5 && "depth"@[0] == 'd',
        "nodes"@.len() == 5 && "nodes"@[0] == 'n',
        "movetime"@.len() == 8 && "movetime"@[0] == 'm',
        "infinite"@.len() == 8 && "infinite"@[0] == 'i',
{
    reveal_strlit("searchmoves");
    reveal_strlit("ponder");
    reveal_strlit("wtime");
    reveal_strlit("btime");
    reveal_strlit("winc");
    reveal_strlit("binc");
    reveal_strlit("movestogo");
    reveal_strlit("depth");
    reveal_strlit("nodes");
    reveal_strlit("movetime");
    reveal_strlit("infinite");
}

/// An argument read from another word than `w` leaves the field of `w`, and the `ponder` and
/// `infinite` flags unless it is that word.
proof fn lemma_go_token_fields(t: Seq<Seq<char>>, p: int, acc: GoCommandView, w: Seq<char>)
    requires
        0 <= p < t.len(),
        go_token_outcome(t, p) is Done,
        is_number_word(w),
    ensures
        ({
            let c = go_apply(acc, go_token_outcome(t, p)->Done_0);
            &&& t[p] != w ==> number_field(c, w) == number_field(acc, w)
            &&& t[p] != "ponder"@ ==> c.ponder == acc.ponder
            &&& t[p] != "infinite"@ ==> c.infinite == acc.infinite
        }),
{
    lemma_go_words();
}

/// Law: reading `go` arguments from `p` on sets the field of a number keyword `w` only at that
/// word, and the `ponder` and `infinite` flags only at theirs: without such a word the value is
/// the one it started with.
pub proof fn lemma_go_fields_kept(t: Seq<Seq<char>>, p: int, acc: GoCommandView, w: Seq<char>)
    requires
        0 <= p,
        is_number_word(w),
    ensures
        go_command_from(t, p, acc) matches Parsed::Done(c, _) ==> {
            &&& word_absent(t, p, w) ==> number_field(c, w) == number_field(acc, w)
            &&& word_absent(t, p, "ponder"@) ==> c.ponder == acc.ponder
            &&& word_absent(t, p, "infinite"@) ==> c.infinite == acc.infinite
        },
    decreases t.len() - p,
{
    if p < t.len() {
        if let Parsed::Done(tok, q) = go_token_outcome(t, p) {
            if p < q <= t.len() {
                lemma_go_token_fields(t, p, acc, w);
                lemma_go_fields_kept(t, q, go_apply(acc, tok), w);
            }
        }
    }
}

/// The `go` argument at `p`, read without error, ends at or before the next keyword at `i`.
proof fn lemma_go_token_stops(t: Seq<Seq<char>>, p: int, i: int)
    requires
        0 <= p < i < t.len(),
        is_go_word(t[i]),
        go_token_outcome(t, p) is Done,
    ensures
        p < go_token_outcome(t, p)->Done_1 <= i,
{
    lemma_go_words();
    assert(unsigned_digits(t[i]) == t[i]);
    assert(!is_digit_spec(t[i][0]));
    assert(!is_unsigned_text(t[i], usize::MAX as nat));
    assert(!is_unsigned_text(t[i], u8::MAX as nat));
    if t[p] == "searchmoves"@ {
        lemma_run_end_bound(t, p + 1, TokenSet::Go, i);
    }
}

/// Law: after reading `go` arguments that hold a number keyword `t[i]` followed by the number
/// `n`, with no later use of that keyword, its field is `n`: `winc 1000` gives White's
/// increment 1000, `depth 6` the depth 6, and so on.
pub proof fn lemma_go_last_number(t: Seq<Seq<char>>, p: int, acc: GoCommandView, i: int)
    requires
        0 <= p <= i,
        i + 1 < t.len(),
        is_number_word(t[i]),
        is_unsigned_text(t[i + 1], number_limit(t[i])),
        word_absent(t, i + 1, t[i]),
    ensures
        go_command_from(t, p, acc) matches Parsed::Done(c, _) ==> number_field(c, t[i]) == Some(
            digits_value(unsigned_digits(t[i + 1])),
        ),
    decreases i - p,
{
    lemma_go_words();
    if p == i {
        let n = digits_value(unsigned_digits(t[i + 1]));
        let tok = go_token_outcome(t, i)->Done_0;
        assert(go_token_outcome(t, i) is Done && go_token_outcome(t, i)->Done_1 == i + 2);
        assert(number_field(go_apply(acc, tok), t[i]) == Some(n));
        lemma_go_fields_kept(t, i + 2, go_apply(acc, tok), t[i]);
    } else if go_token_outcome(t, p) is Done {
        lemma_go_token_stops(t, p, i);
        let tok = go_token_outcome(t, p)->Done_0;
        let q = go_token_outcome(t, p)->Done_1;
        lemma_go_last_number(t, q, go_apply(acc, tok), i);
    }
}

/// Law: after reading `go` arguments that hold `ponder` (or `infinite`), that flag is set.
pub proof fn lemma_go_flag_set(t: Seq<Seq<char>>, p: int, acc: GoCommandView, i: int)
    requires
        0 <= p <= i < t.len(),
        t[i] == "ponder"@ || t[i] == "infinite"@,
    ensures
        go_command_from(t, p, acc) matches Parsed::Done(c, _) ==> (t[i] == "ponder"@ ==> c.ponder) && (t[i]
            == "infinite"@ ==> c.infinite),
    decreases i - p,
{
    lemma_go_words();
    if p == i {
        let tok = go_token_outcome(t, i)->Done_0;
        lemma_go_flags_stay(t, i + 1, go_apply(acc, tok));
    } else if go_token_outcome(t, p) is Done {
        lemma_go_token_stops(t, p, i);
        let tok = go_token_outcome(t, p)->Done_0;
        let q = go_token_outcome(t, p)->Done_1;
        lemma_go_flag_set(t, q, go_apply(acc, tok), i);
    }
}

/// Reading `go` arguments never clears the `ponder` or `infinite` flag.
proof fn lemma_go_flags_stay(t: Seq<Seq<char>>, p: int, acc: GoCommandView)
    requires
        0 <= p,
    ensures
        go_command_from(t, p, acc) matches Parsed::Done(c, _) ==> (acc.ponder ==> c.ponder) && (acc.infinite
            ==> c.infinite),
    decreases t.len() - p,
{
    if p < t.len() {
        if let Parsed::Done(tok, q) = go_token_outcome(t, p) {
            if p < q <= t.len() {
                lemma_go_flags_stay(t, q, go_apply(acc, tok));
            }
        }
    }
}

/// Reading from `i` on words none of which belongs to `set` runs to the end.
proof fn lemma_run_to_end(t: Seq<Seq<char>>, i: int, set: TokenSet)
    requires
        0 <= i <= t.len(),
        forall|j: int| i <= j < t.len() ==> !in_token_set(set, #[trigger] t[j]),
    ensures
        run_end(t, i, set) == t.len(),
    decreases t.len() - i,
{
    if i < t.len() {
        lemma_run_to_end(t, i + 1, set);
    }
}

/// The `position` keywords differ in their length.
proof fn lemma_position_words()
    ensures
        "fen"@.len() == 3,
        "startpos"@.len() == 8,
        "moves"@.len() == 5,
{
    reveal_strlit("fen");
    reveal_strlit("startpos");
    reveal_strlit("moves");
}

/// Law: `position fen` with the six FEN fields, then `moves` and moves that are no `position`
/// keyword, reads as the fields joined by spaces and those moves, in order; without `moves`
/// it reads as the fields and no moves.
pub proof fn lemma_position_fen_moves(f: Seq<Seq<char>>, ms: Seq<Seq<char>>)
    requires
        f.len() == 6,
        forall|k: int| 0 <= k < ms.len() ==> !is_position_word(#[trigger] ms[k]),
    ensures
        position_command_outcome(seq!["fen"@] + f + seq!["moves"@] + ms, 0) == Parsed::Done(
            PositionCommandView { fen: join_words(f), moves: ms },
            8 + ms.len() as int,
        ),
        position_command_outcome(seq!["fen"@] + f, 0) == Parsed::Done(
            PositionCommandView { fen: join_words(f), moves: seq![] },
            7,
        ),
{
    lemma_position_words();
    let t = seq!["fen"@] + f + seq!["moves"@] + ms;
    assert(t[0] == "fen"@);
    assert(t.subrange(1, 7) =~= f);
    assert(t[7] == "moves"@);
    assert forall|j: int| 8 <= j < t.len() implies !in_token_set(TokenSet::Position, #[trigger] t[j]) by {
        assert(t[j] == ms[j - 8]);
    }
    lemma_run_to_end(t, 8, TokenSet::Position);
    assert(t.subrange(8, t.len() as int) =~= ms);
    let u = seq!["fen"@] + f;
    assert(u[0] == "fen"@);
    assert(u.subrange(1, 7) =~= f);
}

/// Law: `position startpos`, then `moves` and moves that are no `position` keyword, reads as
/// the starting position's FEN and those moves, in order.
pub proof fn lemma_position_startpos_moves(ms: Seq<Seq<char>>)
    requires
        forall|k: int| 0 <= k < ms.len() ==> !is_position_word(#[trigger] ms[k]),
    ensures
        position_command_outcome(seq!["startpos"@, "moves"@] + ms, 0) == Parsed::Done(
            PositionCommandView { fen: STARTPOS_FEN@, moves: ms },
            2 + ms.len() as int,
        ),
{
    lemma_position_words();
    let t = seq!["startpos"@, "moves"@] + ms;
    assert(t[0] == "startpos"@);
    assert(t[1] == "moves"@);
    assert forall|j: int| 2 <= j < t.len() implies !in_token_set(TokenSet::Position, #[trigger] t[j]) by {
        assert(t[j] == ms[j - 2]);
    }
    lemma_run_to_end(t, 2, TokenSet::Position);
    assert(t.subrange(2, t.len() as int) =~= ms);
}

/// Law: `setoption name` with name words, then `value` and value words, none of them `name` or
/// `value`, reads as the name words and the value words, each joined by spaces; without
/// `value` it reads as the name and no value.
pub proof fn lemma_set_option_name_value(n: Seq<Seq<char>>, v: Seq<Seq<char>>)
    requires
        forall|k: int| 0 <= k < n.len() ==> !is_set_option_word(#[trigger] n[k]),
        forall|k: int| 0 <= k < v.len() ==> !is_set_option_word(#[trigger] v[k]),
    ensures
        set_option_command_outcome(seq!["name"@] + n + seq!["value"@] + v, 0) == Parsed::Done(
            SetOptionCommandView { name: join_words(n), value: Some(join_words(v)) },
            2 + n.len() + v.len() as int,
        ),
        set_option_command_outcome(seq!["name"@] + n, 0) == Parsed::Done(
            SetOptionCommandView { name: join_words(n), value: None },
            1 + n.len() as int,
        ),
{
    reveal_strlit("name");
    reveal_strlit("value");
    assert("name"@.len() == 4 && "value"@.len() == 5);
    let t = seq!["name"@] + n + seq!["value"@] + v;
    let e: int = 1 + n.len() as int;
    assert(t[0] == "name"@);
    assert(t[e] == "value"@);
    assert forall|j: int| 1 <= j < e implies !in_token_set(TokenSet::SetOption, #[trigger] t[j]) by {
        assert(t[j] == n[j - 1]);
    }
    lemma_run_end_at(t, 1, TokenSet::SetOption, e);
    assert(t.subrange(1, e) =~= n);
    assert forall|j: int| e + 1 <= j < t.len() implies !in_token_set(TokenSet::SetOption, #[trigger] t[j]) by {
        assert(t[j] == v[j - e - 1]);
    }
    lemma_run_to_end(t, e + 1, TokenSet::SetOption);
    assert(t.subrange(e + 1, t.len() as int) =~= v);
    let u = seq!["name"@] + n;
    assert(u[0] == "name"@);
    assert forall|j: int| 1 <= j < u.len() implies !in_token_set(TokenSet::SetOption, #[trigger] u[j]) by {
        assert(u[j] == n[j - 1]);
    }
    lemma_run_to_end(u, 1, TokenSet::SetOption);
    assert(u.subrange(1, u.len() as int) =~= n);
}

/// Reading from `i` stops at `e`, the first word of `set` from `i` on.
proof fn lemma_run_end_at(t: Seq<Seq<char>>, i: int, set: TokenSet, e: int)
    requires
        0 <= i <= e < t.len(),
        in_token_set(set, t[e]),
        forall|j: int| i <= j < e ==> !in_token_set(set, #[trigger] t[j]),
    ensures
        run_end(t, i, set) == e,
    decreases e - i,
{
    if i < e {
        lemma_run_end_at(t, i + 1, set, e);
    }
}

} // verus!
