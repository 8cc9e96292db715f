use vstd::prelude::*;
use vstd::string::StringSliceAdditionalSpecFns;

use crate::buffer::{BufferCollection, BufferHandle};
use crate::buffer_view::{BufferViewCollection, BufferViewHandle, ClientHandle};
use crate::bytes::{bytes_eq, copy_range, push_all, str_bytes};
use vstd::utf8::encode_utf8;

verus! {

pub const PARAMETERS_CAPACITY: usize = 8;
pub const HISTORY_CAPACITY: usize = 10;

/// Bytes that `trim_start` style skipping treats as blank: ASCII whitespace.
pub open spec fn spec_is_blank(b: u8) -> bool {
    b == 32 || b == 9 || b == 10 || b == 11 || b == 12 || b == 13
}

fn is_blank(b: u8) -> (r: bool)
    ensures
        r == spec_is_blank(b),
{
    b == 32 || b == 9 || b == 10 || b == 11 || b == 12 || b == 13
}

/// The first index at or after `k` whose byte is neither blank nor a backslash.
pub open spec fn skip_separators(t: Seq<u8>, k: int) -> int
    decreases t.len() - k,
{
    if k >= t.len() {
        t.len() as int
    } else if spec_is_blank(t[k]) || t[k] == 92 {
        skip_separators(t, k + 1)
    } else {
        k
    }
}

/// The first index at or after `k` holding byte `b`, if any.
pub open spec fn find_byte(t: Seq<u8>, k: int, b: u8) -> Option<int>
    decreases t.len() - k,
{
    if k >= t.len() {
        None
    } else if t[k] == b {
        Some(k)
    } else {
        find_byte(t, k + 1, b)
    }
}

/// A byte that ends an unquoted token.
pub open spec fn spec_ends_plain(b: u8) -> bool {
    spec_is_blank(b) || b == 33 || b == 34 || b == 39 || b == 91
}

/// The first index at or after `k` whose byte ends an unquoted token.
pub open spec fn plain_end(t: Seq<u8>, k: int) -> int
    decreases t.len() - k,
{
    if k >= t.len() {
        t.len() as int
    } else if spec_ends_plain(t[k]) {
        k
    } else {
        plain_end(t, k + 1)
    }
}

#[derive(Clone, Copy, Debug, PartialEq, Eq, Structural)]
pub enum CommandTokenKind {
    Text,
    Bang,
    Unterminated,
}

/// A token of a command: its kind and the bytes `start..end` of the command
/// text that it stands for.
#[derive(Clone, Copy, Debug, PartialEq, Eq, Structural)]
pub struct CommandToken {
    pub kind: CommandTokenKind,
    pub start: usize,
    pub end: usize,
}

/// The token that starts at or after `k`, with where the rest begins.
/// Quoted text runs to the matching `"`, `'` or `]`; without one the token is
/// unterminated and takes the rest. A `!` is a token of its own; other text
/// runs until a blank or one of `! " ' [`.
pub open spec fn spec_next_token(t: Seq<u8>, k: int) -> Option<(CommandToken, int)> {
    let s = skip_separators(t, k);
    if s >= t.len() {
        None
    } else {
        let b = t[s];
        if b == 34 || b == 39 || b == 91 {
            let close: u8 = if b == 91 { 93 } else { b };
            match find_byte(t, s + 1, close) {
                Some(i) => Some((CommandToken { kind: CommandTokenKind::Text, start: (s + 1) as usize, end: i as usize }, i + 1)),
                None => Some((CommandToken { kind: CommandTokenKind::Unterminated, start: (s + 1) as usize, end: t.len() as usize }, t.len() as int)),
            }
        } else if b == 33 {
            Some((CommandToken { kind: CommandTokenKind::Bang, start: s as usize, end: (s + 1) as usize }, s + 1))
        } else {
            let e = plain_end(t, s);
            Some((CommandToken { kind: CommandTokenKind::Text, start: s as usize, end: e as usize }, e))
        }
    }
}

proof fn lemma_skip_separators(t: Seq<u8>, k: int)
    requires
        0 <= k,
    ensures
        k <= skip_separators(t, k) || (k > t.len() && skip_separators(t, k) == t.len()),
        skip_separators(t, k) <= t.len(),
        skip_separators(t, k) < t.len() ==> !spec_is_blank(t[skip_separators(t, k)]) && t[skip_separators(t, k)] != 92,
    decreases t.len() - k,
{
    if k < t.len() && (spec_is_blank(t[k]) || t[k] == 92) {
        lemma_skip_separators(t, k + 1);
    }
}

proof fn lemma_find_byte(t: Seq<u8>, k: int, b: u8)
    requires
        0 <= k,
    ensures
        find_byte(t, k, b) matches Some(i) ==> k <= i < t.len() && t[i] == b,
    decreases t.len() - k,
{
    if k < t.len() && t[k] != b {
        lemma_find_byte(t, k + 1, b);
    }
}

proof fn lemma_plain_end(t: Seq<u8>, k: int)
    requires
        0 <= k <= t.len(),
    ensures
        k <= plain_end(t, k) <= t.len(),
    decreases t.len() - k,
{
    if k < t.len() && !spec_ends_plain(t[k]) {
        lemma_plain_end(t, k + 1);
    }
}

proof fn lemma_next_token(t: Seq<u8>, k: int)
    requires
        0 <= k <= t.len(),
        t.len() <= usize::MAX,
    ensures
        spec_next_token(t, k) matches Some((tok, n)) ==> k < n <= t.len() && tok.start <= tok.end <= t.len(),
{
    lemma_skip_separators(t, k);
    let s = skip_separators(t, k);
    if s < t.len() {
        let b = t[s];
        if b == 34 || b == 39 || b == 91 {
            let close: u8 = if b == 91 { 93 } else { b };
            lemma_find_byte(t, s + 1, close);
        } else if b == 33 {
        } else {
            assert(!spec_ends_plain(t[s]));
            lemma_plain_end(t, s + 1);
            assert(plain_end(t, s) == plain_end(t, s + 1));
        }
    }
}

/// All tokens of `t` from byte `k` on.
pub open spec fn tokens_from(t: Seq<u8>, k: int) -> Seq<CommandToken>
    decreases t.len() - k,
{
    if k < 0 || k > t.len() {
        Seq::empty()
    } else {
        match spec_next_token(t, k) {
            None => Seq::empty(),
            Some((tok, n)) => if k < n <= t.len() { seq![tok] + tokens_from(t, n) } else { Seq::empty() },
        }
    }
}

/// Reads the tokens of a command one at a time.
pub struct CommandTokenIter {
    text: Vec<u8>,
    rest: usize,
}

impl CommandTokenIter {
    pub closed spec fn text(&self) -> Seq<u8> {
        self.text@
    }

    pub closed spec fn remaining(&self) -> Seq<CommandToken> {
        tokens_from(self.text@, self.rest as int)
    }

    pub closed spec fn wf(&self) -> bool {
        self.rest <= self.text@.len()
    }

    pub fn new(text: &str) -> (r: Self)
        ensures
            r.wf(),
            r.text() == text.spec_bytes(),
            r.remaining() == tokens_from(text.spec_bytes(), 0),
    {
        CommandTokenIter { text: str_bytes(text), rest: 0 }
    }

    /// The next token, or `None` once the text is used up.
    pub fn next(&mut self) -> (r: Option<CommandToken>)
        requires
            old(self).wf(),
        ensures
            final(self).wf(),
            final(self).text() == old(self).text(),
            old(self).remaining().len() == 0 ==> r is None && final(self).remaining().len() == 0,
            old(self).remaining().len() > 0 ==> r == Some(old(self).remaining()[0])
                && final(self).remaining() == old(self).remaining().drop_first(),
    {
        let t = self.text.as_slice();
        let n = t.len();
        let ghost tv = t@;
        proof {
            lemma_next_token(tv, self.rest as int);
            lemma_skip_separators(tv, self.rest as int);
        }
        let mut s = self.rest;
        while s < n && (is_blank(t[s]) || t[s] == 92)
            invariant
                self.rest <= s <= n,
                n == tv.len(),
                t@ == tv,
                skip_separators(tv, s as int) == skip_separators(tv, self.rest as int),
            decreases n - s,
        {
            s = s + 1;
        }
        if s >= n {
            return None;
        }
        let b = t[s];
        let (tok, next) = if b == 34 || b == 39 || b == 91 {
            let close: u8 = if b == 91 { 93 } else { b };
            let mut i = s + 1;
            while i < n && t[i] != close
                invariant
                    s < i <= n,
                    n == tv.len(),
                    t@ == tv,
                    find_byte(tv, i as int, close) == find_byte(tv, s + 1, close),
                decreases n - i,
            {
                i = i + 1;
            }
            if i < n {
                (CommandToken { kind: CommandTokenKind::Text, start: s + 1, end: i }, i + 1)
            } else {
                (CommandToken { kind: CommandTokenKind::Unterminated, start: s + 1, end: n }, n)
            }
        } else if b == 33 {
            (CommandToken { kind: CommandTokenKind::Bang, start: s, end: s + 1 }, s + 1)
        } else {
            let mut e = s;
            while e < n && !(is_blank(t[e]) || t[e] == 33 || t[e] == 34 || t[e] == 39 || t[e] == 91)
                invariant
                    s <= e <= n,
                    n == tv.len(),
                    t@ == tv,
                    plain_end(tv, e as int) == plain_end(tv, s as int),
                decreases n - e,
            {
                e = e + 1;
            }
            (CommandToken { kind: CommandTokenKind::Text, start: s, end: e }, e)
        };
        self.rest = next;
        Some(tok)
    }
}

/// The first index at or after `k` whose byte is not blank.
pub open spec fn skip_blanks(t: Seq<u8>, k: int) -> int
    decreases t.len() - k,
{
    if k >= t.len() {
        t.len() as int
    } else if spec_is_blank(t[k]) {
        skip_blanks(t, k + 1)
    } else {
        k
    }
}

/// The bytes `start..end` of a command text.
#[derive(Clone, Copy, Debug, PartialEq, Eq, Structural)]
pub struct TextRange {
    pub start: usize,
    pub end: usize,
}

pub open spec fn token_range(tok: CommandToken) -> TextRange {
    TextRange { start: tok.start, end: tok.end }
}

/// Each variant holds the part of the command text it is about.
#[derive(Clone, Copy, Debug, PartialEq, Eq, Structural)]
pub enum CommandParseError {
    InvalidCommandName(TextRange),
    CommandNotFound(TextRange),
    CommandDoesNotAcceptBang(TextRange),
    UnterminatedArgument(TextRange),
    InvalidArgument(TextRange),
    TooFewArguments(TextRange, usize),
    TooManyArguments(TextRange, usize),
}

#[derive(Clone, Copy, Debug, PartialEq, Eq, Structural)]
pub enum CommandSource {
    Builtin(usize),
}

/// A command of the editor as the parser sees it: the names it answers to,
/// whether it takes a `!`, and its parameters.
pub struct BuiltinCommand {
    pub names: Vec<String>,
    pub description: String,
    pub bang_usage: Option<String>,
    pub params: Vec<String>,
}

pub ghost struct CommandView {
    pub names: Seq<Seq<u8>>,
    pub accepts_bang: bool,
    pub param_count: nat,
}

impl View for BuiltinCommand {
    type V = CommandView;

    open spec fn view(&self) -> CommandView {
        CommandView {
            names: self.names@.map_values(|n: String| encode_utf8(n@)),
            accepts_bang: self.bang_usage is Some,
            param_count: self.params@.len(),
        }
    }
}

/// The first command with a name equal to `name`.
pub open spec fn spec_find_command(cmds: Seq<CommandView>, name: Seq<u8>) -> Option<int>
    decreases cmds.len(),
{
    if cmds.len() == 0 {
        None
    } else {
        match spec_find_command(cmds.drop_last(), name) {
            Some(i) => Some(i),
            None => if cmds.last().names.contains(name) { Some(cmds.len() - 1) } else { None },
        }
    }
}

/// The first token from `k` on that is not an argument the command has room
/// for: anything but text, or text past its `p` parameters.
pub open spec fn first_bad(ts: Seq<CommandToken>, first: int, k: int, p: nat) -> Option<int>
    decreases ts.len() - k,
{
    if k >= ts.len() {
        None
    } else if ts[k].kind == CommandTokenKind::Text && k - first < p {
        first_bad(ts, first, k + 1, p)
    } else {
        Some(k)
    }
}

/// What parsing the command text `t` gives: the command, whether a `!`
/// follows its name, and the ranges of its arguments; or the first error.
pub open spec fn spec_parse(cmds: Seq<CommandView>, t: Seq<u8>) -> Result<(usize, bool, Seq<TextRange>), CommandParseError> {
    let ts = tokens_from(t, 0);
    if ts.len() == 0 {
        Err(CommandParseError::InvalidCommandName(TextRange { start: skip_blanks(t, 0) as usize, end: t.len() as usize }))
    } else if ts[0].kind != CommandTokenKind::Text {
        Err(CommandParseError::InvalidCommandName(token_range(ts[0])))
    } else {
        let name = ts[0];
        let bang = ts.len() > 1 && ts[1].kind == CommandTokenKind::Bang;
        let first: int = if bang { 2 } else { 1 };
        match spec_find_command(cmds, t.subrange(name.start as int, name.end as int)) {
            None => Err(CommandParseError::CommandNotFound(token_range(name))),
            Some(i) => {
                let p = cmds[i].param_count;
                if bang && !cmds[i].accepts_bang {
                    Err(CommandParseError::CommandDoesNotAcceptBang(token_range(name)))
                } else {
                    match first_bad(ts, first, first, p) {
                        Some(j) => match ts[j].kind {
                            CommandTokenKind::Text => Err(CommandParseError::TooManyArguments(token_range(ts[j]), p as usize)),
                            CommandTokenKind::Bang => Err(CommandParseError::InvalidArgument(token_range(ts[j]))),
                            CommandTokenKind::Unterminated => Err(CommandParseError::UnterminatedArgument(token_range(ts[j]))),
                        },
                        None => {
                            let count = ts.len() - first;
                            if count < p {
                                Err(CommandParseError::TooFewArguments(
                                    if count > 0 { token_range(ts.last()) } else { token_range(name) },
                                    p as usize,
                                ))
                            } else {
                                Ok((i as usize, bang, ts.subrange(first, ts.len() as int).map_values(|tok: CommandToken| token_range(tok))))
                            }
                        },
                    }
                }
            },
        }
    }
}

/// All tokens of `text`.
pub fn tokenize(text: &str) -> (r: Vec<CommandToken>)
    ensures
        r@ == tokens_from(text.spec_bytes(), 0),
{
    let mut it = CommandTokenIter::new(text);
    let mut r: Vec<CommandToken> = Vec::new();
    loop
        invariant
            it.wf(),
            it.text() == text.spec_bytes(),
            r@ + it.remaining() == tokens_from(text.spec_bytes(), 0),
        decreases it.remaining().len(),
    {
        match it.next() {
            Some(tok) => {
                r.push(tok);
                assert(r@ + it.remaining() =~= tokens_from(text.spec_bytes(), 0));
            },
            None => {
                assert(r@ =~= tokens_from(text.spec_bytes(), 0));
                return r;
            },
        }
    }
}

/// The editor's commands and the history of command lines entered.
pub struct CommandManager {
    builtin_commands: Vec<BuiltinCommand>,
    history: std::collections::VecDeque<String>,
}

impl CommandManager {
    pub closed spec fn commands(&self) -> Seq<CommandView> {
        self.builtin_commands@.map_values(|c: BuiltinCommand| c@)
    }

    pub closed spec fn history(&self) -> Seq<Seq<char>> {
        self.history@.map_values(|s: String| s@)
    }

    /// A manager that knows the given commands and has no history.
    pub fn new(builtin_commands: Vec<BuiltinCommand>) -> (r: Self)
        ensures
            r.commands() == builtin_commands@.map_values(|c: BuiltinCommand| c@),
            r.history().len() == 0,
    {
        CommandManager { builtin_commands, history: std::collections::VecDeque::new() }
    }

    pub fn builtin_commands(&self) -> (r: &Vec<BuiltinCommand>)
        ensures
            r@.map_values(|c: BuiltinCommand| c@) == self.commands(),
    {
        &self.builtin_commands
    }

    fn find_command_bytes(&self, name: &[u8]) -> (r: Option<usize>)
        ensures
            r is Some <==> spec_find_command(self.commands(), name@) is Some,
            r matches Some(i) ==> spec_find_command(self.commands(), name@) == Some(i as int),
    {
        let ghost cmds = self.commands();
        let mut i: usize = 0;
        while i < self.builtin_commands.len()
            invariant
                i <= cmds.len(),
                cmds == self.commands(),
                spec_find_command(cmds.subrange(0, i as int), name@) is None,
            decreases cmds.len() - i,
        {
            let names = &self.builtin_commands[i].names;
            let ghost nv = cmds[i as int].names;
            assert(nv == names@.map_values(|n: String| encode_utf8(n@)));
            let mut j: usize = 0;
            let mut found = false;
            while j < names.len()
                invariant
                    j <= names@.len(),
                    nv == names@.map_values(|n: String| encode_utf8(n@)),
                    found == (exists|w: int| 0 <= w < j && #[trigger] nv[w] == name@),
                decreases names@.len() - j,
            {
                let candidate = str_bytes(names[j].as_str());
                assert(nv[j as int] == encode_utf8(names@[j as int]@));
                if bytes_eq(candidate.as_slice(), name) {
                    found = true;
                }
                j = j + 1;
            }
            assert(cmds.subrange(0, i + 1).drop_last() =~= cmds.subrange(0, i as int));
            if found {
                proof {
                    lemma_find_prefix(cmds, i + 1, name@);
                }
                return Some(i);
            }
            i = i + 1;
        }
        assert(cmds.subrange(0, i as int) =~= cmds);
        None
    }

    /// The first command that answers to `name`.
    pub fn find_command(&self, name: &str) -> (r: Option<CommandSource>)
        ensures
            r is Some <==> spec_find_command(self.commands(), name.spec_bytes()) is Some,
            r matches Some(CommandSource::Builtin(i)) ==> spec_find_command(self.commands(), name.spec_bytes()) == Some(i as int),
    {
        let name = str_bytes(name);
        match self.find_command_bytes(name.as_slice()) {
            Some(i) => Some(CommandSource::Builtin(i)),
            None => None,
        }
    }

    /// Parses one command line: its name, an optional `!`, then one argument
    /// for each parameter of the command.
    pub fn parse(&self, text: &str) -> (r: Result<(CommandSource, bool, Vec<TextRange>), CommandParseError>)
        ensures
            match (r, spec_parse(self.commands(), text.spec_bytes())) {
                (Ok((CommandSource::Builtin(i), bang, args)), Ok((si, sbang, sargs))) => i == si && bang == sbang && args@ == sargs,
                (Err(e), Err(se)) => e == se,
                _ => false,
            },
    {
        let t = str_bytes(text);
        let ghost tv = t@;
        let tokens = tokenize(text);
        let ghost ts = tokens@;
        if tokens.len() == 0 {
            let mut s: usize = 0;
            while s < t.len() && is_blank(t[s])
                invariant
                    s <= tv.len(),
                    t@ == tv,
                    skip_blanks(tv, s as int) == skip_blanks(tv, 0),
                decreases tv.len() - s,
            {
                s = s + 1;
            }
            return Err(CommandParseError::InvalidCommandName(TextRange { start: s, end: t.len() }));
        }
        let name = tokens[0];
        let name_range = TextRange { start: name.start, end: name.end };
        if name.kind != CommandTokenKind::Text {
            return Err(CommandParseError::InvalidCommandName(name_range));
        }
        let bang = tokens.len() > 1 && tokens[1].kind == CommandTokenKind::Bang;
        let first: usize = if bang { 2 } else { 1 };
        let tl = t.len();
        proof {
            lemma_tokens_in_bounds(tv, 0);
        }
        let name_bytes = copy_range(t.as_slice(), name.start, name.end);
        assert(name_bytes@ == tv.subrange(name.start as int, name.end as int));
        let index = match self.find_command_bytes(name_bytes.as_slice()) {
            Some(i) => i,
            None => return Err(CommandParseError::CommandNotFound(name_range)),
        };
        proof {
            lemma_find_bounds(self.commands(), name_bytes@);
        }
        let command = &self.builtin_commands[index];
        let ghost cv = self.commands()[index as int];
        assert(cv == command@);
        if bang && command.bang_usage.is_none() {
            return Err(CommandParseError::CommandDoesNotAcceptBang(name_range));
        }
        let p = command.params.len();
        let mut args: Vec<TextRange> = Vec::new();
        let mut k = first;
        while k < tokens.len()
            invariant
                first <= k <= ts.len(),
                ts == tokens@,
                first as int == (if bang { 2int } else { 1int }),
                first <= ts.len() || k == first,
                p == cv.param_count,
                first_bad(ts, first as int, k as int, p as nat) == first_bad(ts, first as int, first as int, p as nat),
                tv == text.spec_bytes(),
                ts == tokens_from(tv, 0),
                ts.len() > 0,
                name == ts[0],
                name.kind == CommandTokenKind::Text,
                name_range == token_range(name),
                bang == (ts.len() > 1 && ts[1].kind == CommandTokenKind::Bang),
                spec_find_command(self.commands(), tv.subrange(name.start as int, name.end as int)) == Some(index as int),
                cv == self.commands()[index as int],
                !(bang && !cv.accepts_bang),
                args@ == ts.subrange(first as int, k as int).map_values(|tok: CommandToken| token_range(tok)),
            decreases ts.len() - k,
        {
            let tok = tokens[k];
            let range = TextRange { start: tok.start, end: tok.end };
            match tok.kind {
                CommandTokenKind::Text => {
                    if k - first >= p {
                        return Err(CommandParseError::TooManyArguments(range, p));
                    }
                },
                CommandTokenKind::Bang => return Err(CommandParseError::InvalidArgument(range)),
                CommandTokenKind::Unterminated => return Err(CommandParseError::UnterminatedArgument(range)),
            }
            args.push(range);
            k = k + 1;
            assert(args@ =~= ts.subrange(first as int, k as int).map_values(|tok: CommandToken| token_range(tok)));
        }
        let count = args.len();
        if count < p {
            let last = if count > 0 { args[count - 1] } else { name_range };
            return Err(CommandParseError::TooFewArguments(last, p));
        }
        Ok((CommandSource::Builtin(index), bang, args))
    }

    /// Parses a command line and makes the context its command runs with;
    /// running the command itself is up to the caller.
    pub fn eval_command(
        &self,
        client_handle: Option<ClientHandle>,
        buffer_view_handle: Option<BufferViewHandle>,
        command: &str,
    ) -> (r: Result<(CommandSource, CommandContext), CommandError>)
        ensures
            match (r, spec_parse(self.commands(), command.spec_bytes())) {
                (Ok((CommandSource::Builtin(i), ctx)), Ok((si, sbang, sargs))) => i == si && ctx.bang == sbang
                    && ctx.args@ == sargs && ctx.client_handle == client_handle && ctx.buffer_view_handle == buffer_view_handle,
                (Err(CommandError::ParseError(e)), Err(se)) => e == se,
                _ => false,
            },
    {
        match self.parse(command) {
            Ok((source, bang, args)) => Ok((source, CommandContext { client_handle, buffer_view_handle, bang, args })),
            Err(error) => Err(CommandError::ParseError(error)),
        }
    }

    pub fn history_len(&self) -> (r: usize)
        ensures
            r == self.history().len(),
    {
        self.history.len()
    }

    /// The history entry at `index`, oldest first; empty past the end.
    pub fn history_entry(&self, index: usize) -> (r: &str)
        ensures
            index < self.history().len() ==> r@ == self.history()[index as int],
            index >= self.history().len() ==> r@.len() == 0,
    {
        if index < self.history.len() {
            self.history[index].as_str()
        } else {
            proof {
                reveal_strlit("");
            }
            ""
        }
    }

    /// Remembers a command line; empty ones are skipped, and once the
    /// history is full the oldest entry makes room.
    pub fn add_to_history(&mut self, entry: &str)
        requires
            old(self).history().len() <= HISTORY_CAPACITY,
        ensures
            final(self).commands() == old(self).commands(),
            final(self).history().len() <= HISTORY_CAPACITY,
            entry@.len() == 0 ==> final(self).history() == old(self).history(),
            entry@.len() > 0 && old(self).history().len() < HISTORY_CAPACITY ==> final(self).history() == old(self).history().push(entry@),
            entry@.len() > 0 && old(self).history().len() == HISTORY_CAPACITY ==> final(self).history() == old(self).history().drop_first().push(entry@),
    {
        if entry.is_empty() {
            return;
        }
        if self.history.len() == HISTORY_CAPACITY {
            let _ = self.history.pop_front();
        }
        self.history.push_back(entry.to_owned());
        proof {
            if old(self).history().len() == HISTORY_CAPACITY {
                assert(self.history() =~= old(self).history().drop_first().push(entry@));
            } else {
                assert(self.history() =~= old(self).history().push(entry@));
            }
        }
    }
}

proof fn lemma_find_bounds(cmds: Seq<CommandView>, name: Seq<u8>)
    ensures
        spec_find_command(cmds, name) matches Some(i) ==> 0 <= i < cmds.len() && cmds[i].names.contains(name),
    decreases cmds.len(),
{
    if cmds.len() > 0 {
        lemma_find_bounds(cmds.drop_last(), name);
    }
}

proof fn lemma_find_prefix(cmds: Seq<CommandView>, k: int, name: Seq<u8>)
    requires
        0 <= k <= cmds.len(),
        spec_find_command(cmds.subrange(0, k), name) is Some,
    ensures
        spec_find_command(cmds, name) == spec_find_command(cmds.subrange(0, k), name),
    decreases cmds.len() - k,
{
    if k < cmds.len() {
        assert(cmds.subrange(0, k + 1).drop_last() =~= cmds.subrange(0, k));
        lemma_find_prefix(cmds, k + 1, name);
    } else {
        assert(cmds.subrange(0, k) =~= cmds);
    }
}

proof fn lemma_tokens_in_bounds(t: Seq<u8>, k: int)
    requires
        0 <= k <= t.len(),
        t.len() <= usize::MAX,
    ensures
        forall|i: int| 0 <= i < tokens_from(t, k).len() ==> (#[trigger] tokens_from(t, k)[i]).start <= tokens_from(t, k)[i].end <= t.len(),
    decreases t.len() - k,
{
    lemma_next_token(t, k);
    let ts = tokens_from(t, k);
    if let Some((tok, n)) = spec_next_token(t, k) {
        assert(k < n <= t.len());
        lemma_tokens_in_bounds(t, n);
        assert(ts == seq![tok] + tokens_from(t, n));
        assert forall|i: int| 0 <= i < ts.len() implies (#[trigger] ts[i]).start <= ts[i].end <= t.len() by {
            if i > 0 {
                assert(ts[i] == tokens_from(t, n)[i - 1]);
            } else {
                assert(ts[0] == tok);
            }
        }
    } else {
        assert(ts.len() == 0);
    }
}

/// Where the command that starts at `i` stops: at the first newline or `#`
/// that no backslash escapes, or at the end.
pub open spec fn command_end(t: Seq<u8>, i: int) -> int
    decreases t.len() - i,
{
    if i >= t.len() {
        t.len() as int
    } else if t[i] == 92 {
        if i + 2 >= t.len() { t.len() as int } else { command_end(t, i + 2) }
    } else if t[i] == 10 || t[i] == 35 {
        i
    } else {
        command_end(t, i + 1)
    }
}

/// The first newline at or after `i`, or the end.
pub open spec fn line_end(t: Seq<u8>, i: int) -> int
    decreases t.len() - i,
{
    if i >= t.len() {
        t.len() as int
    } else if t[i] == 10 {
        i
    } else {
        line_end(t, i + 1)
    }
}

/// The next command of a multi-command text from byte `k` on, with where the
/// rest begins. Blank lines are skipped, a backslash escapes the byte after it
/// (so a backslash before a newline continues the command), and `#` starts a
/// comment that runs to the end of the line.
pub open spec fn spec_next_command(t: Seq<u8>, k: int) -> Option<(TextRange, int)>
    decreases t.len() - k,
{
    let s = skip_blanks(t, k);
    if k < 0 || s >= t.len() {
        None
    } else {
        let e = command_end(t, s);
        if e >= t.len() {
            Some((TextRange { start: s as usize, end: t.len() as usize }, t.len() as int))
        } else if t[e] == 10 {
            Some((TextRange { start: s as usize, end: e as usize }, e))
        } else if s < e {
            Some((TextRange { start: s as usize, end: e as usize }, line_end(t, e)))
        } else if k < line_end(t, e) <= t.len() {
            spec_next_command(t, line_end(t, e))
        } else {
            None
        }
    }
}

proof fn lemma_skip_blanks(t: Seq<u8>, k: int)
    requires
        0 <= k,
    ensures
        k <= skip_blanks(t, k) || (k > t.len() && skip_blanks(t, k) == t.len()),
        skip_blanks(t, k) <= t.len(),
        skip_blanks(t, k) < t.len() ==> !spec_is_blank(t[skip_blanks(t, k)]),
    decreases t.len() - k,
{
    if k < t.len() && spec_is_blank(t[k]) {
        lemma_skip_blanks(t, k + 1);
    }
}

proof fn lemma_command_end(t: Seq<u8>, i: int)
    requires
        0 <= i,
    ensures
        i <= command_end(t, i) || (i > t.len() && command_end(t, i) == t.len()),
        command_end(t, i) <= t.len(),
    decreases t.len() - i,
{
    if i < t.len() {
        if t[i] == 92 {
            if i + 2 < t.len() {
                lemma_command_end(t, i + 2);
            }
        } else if !(t[i] == 10 || t[i] == 35) {
            lemma_command_end(t, i + 1);
        }
    }
}

proof fn lemma_line_end(t: Seq<u8>, i: int)
    requires
        0 <= i <= t.len(),
    ensures
        i <= line_end(t, i) <= t.len(),
    decreases t.len() - i,
{
    if i < t.len() && t[i] != 10 {
        lemma_line_end(t, i + 1);
    }
}

/// Splits a text into its commands, one at a time.
pub struct CommandIter {
    text: Vec<u8>,
    rest: usize,
}

impl CommandIter {
    pub closed spec fn text(&self) -> Seq<u8> {
        self.text@
    }

    pub closed spec fn rest(&self) -> int {
        self.rest as int
    }

    pub fn new(commands: &str) -> (r: Self)
        ensures
            r.text() == commands.spec_bytes(),
            r.rest() == 0,
    {
        CommandIter { text: str_bytes(commands), rest: 0 }
    }

    /// The range of the next command, or `None` when only blanks and
    /// comments are left.
    pub fn next(&mut self) -> (r: Option<TextRange>)
        requires
            0 <= old(self).rest() <= old(self).text().len(),
        ensures
            final(self).text() == old(self).text(),
            0 <= final(self).rest() <= final(self).text().len(),
            match spec_next_command(old(self).text(), old(self).rest()) {
                None => r is None,
                Some((range, next)) => r == Some(range) && final(self).rest() == next,
            },
        decreases old(self).text().len() - old(self).rest(),
    {
        let t = self.text.as_slice();
        let n = t.len();
        let ghost tv = t@;
        let k = self.rest;
        proof {
            lemma_skip_blanks(tv, k as int);
        }
        let mut s = k;
        while s < n && is_blank(t[s])
            invariant
                k <= s <= n,
                n == tv.len(),
                t@ == tv,
                skip_blanks(tv, s as int) == skip_blanks(tv, k as int),
            decreases n - s,
        {
            s = s + 1;
        }
        if s >= n {
            return None;
        }
        proof {
            lemma_command_end(tv, s as int);
        }
        let mut e = s;
        while e < n && t[e] != 10 && t[e] != 35
            invariant
                s <= e <= n,
                n == tv.len(),
                t@ == tv,
                command_end(tv, e as int) == command_end(tv, s as int) || (e == n && command_end(tv, s as int) == n),
            decreases n - e,
        {
            if t[e] == 92 {
                if n - e <= 2 {
                    e = n;
                } else {
                    e = e + 2;
                }
            } else {
                e = e + 1;
            }
        }
        if e >= n {
            self.rest = n;
            return Some(TextRange { start: s, end: n });
        }
        if t[e] == 10 {
            self.rest = e;
            return Some(TextRange { start: s, end: e });
        }
        proof {
            lemma_line_end(tv, e as int);
        }
        let mut l = e;
        while l < n && t[l] != 10
            invariant
                e <= l <= n,
                n == tv.len(),
                t@ == tv,
                line_end(tv, l as int) == line_end(tv, e as int),
            decreases n - l,
        {
            l = l + 1;
        }
        if s < e {
            self.rest = l;
            return Some(TextRange { start: s, end: e });
        }
        if k < l {
            self.rest = l;
            return self.next();
        }
        None
    }
}

/// What running a command line can fail with. Ranges are bytes of the
/// command text.
#[derive(Clone, Copy, Debug)]
pub enum CommandError {
    Aborted,
    ParseError(CommandParseError),
    CommandNotFound(TextRange),
    UnsavedChanges,
    NoBufferOpened,
    InvalidBufferHandle(BufferHandle),
    InvalidPath(TextRange),
    ParseArgError { arg: TextRange, expected: &'static str },
    ConfigNotFound(TextRange),
    InvalidConfigValue { key: TextRange, value: TextRange },
    ColorNotFound(TextRange),
    InvalidColorValue { key: TextRange, value: TextRange },
    InvalidGlob(TextRange),
    InvalidModeError(TextRange),
    InvalidRegisterKey(TextRange),
    LspServerNotRunning,
}

/// The value of a run of decimal digits.
pub open spec fn decimal_value(s: Seq<u8>) -> int
    decreases s.len(),
{
    if s.len() == 0 {
        0
    } else {
        10 * decimal_value(s.drop_last()) + (s.last() - 48)
    }
}

pub open spec fn all_digits(s: Seq<u8>) -> bool {
    forall|i: int| 0 <= i < s.len() ==> 48 <= #[trigger] s[i] <= 57
}

proof fn lemma_decimal_grows(s: Seq<u8>, k: int)
    requires
        all_digits(s),
        0 <= k <= s.len(),
    ensures
        decimal_value(s.subrange(0, k)) <= decimal_value(s),
        0 <= decimal_value(s.subrange(0, k)),
    decreases s.len() - k,
{
    if k < s.len() {
        lemma_decimal_grows(s, k + 1);
        assert(s.subrange(0, k + 1).drop_last() =~= s.subrange(0, k));
    } else {
        assert(s.subrange(0, k) =~= s);
        lemma_decimal_nonneg(s);
    }
}

proof fn lemma_decimal_nonneg(s: Seq<u8>)
    requires
        all_digits(s),
    ensures
        decimal_value(s) >= 0,
    decreases s.len(),
{
    if s.len() > 0 {
        lemma_decimal_nonneg(s.drop_last());
    }
}

/// What a command runs with: the client and the view it is on, whether a `!`
/// followed the name, and the ranges of the arguments in the command text.
pub struct CommandContext {
    pub client_handle: Option<ClientHandle>,
    pub buffer_view_handle: Option<BufferViewHandle>,
    pub bang: bool,
    pub args: Vec<TextRange>,
}

impl CommandContext {
    /// Argument `index` of the command `text` read as a decimal number.
    pub fn parse_arg(&self, text: &str, index: usize) -> (r: Result<usize, CommandError>)
        requires
            index < self.args@.len(),
            self.args@[index as int].start <= self.args@[index as int].end <= text.spec_bytes().len(),
        ensures
            ({
                let range = self.args@[index as int];
                let digits = text.spec_bytes().subrange(range.start as int, range.end as int);
                let ok = digits.len() > 0 && all_digits(digits) && decimal_value(digits) <= usize::MAX;
                &&& ok ==> r == Ok::<usize, CommandError>(decimal_value(digits) as usize)
                &&& !ok ==> (r matches Err(CommandError::ParseArgError { arg, .. }) && arg == range)
            }),
    {
        let range = self.args[index];
        let t = str_bytes(text);
        let digits = copy_range(t.as_slice(), range.start, range.end);
        let error = CommandError::ParseArgError { arg: range, expected: "a number" };
        if digits.len() == 0 {
            return Err(error);
        }
        let mut value: usize = 0;
        let mut i: usize = 0;
        while i < digits.len()
            invariant
                i <= digits@.len(),
                range == self.args@[index as int],
                digits@ == text.spec_bytes().subrange(range.start as int, range.end as int),
                all_digits(digits@.subrange(0, i as int)),
                value == decimal_value(digits@.subrange(0, i as int)),
                (error matches CommandError::ParseArgError { arg, .. } && arg == range),
            decreases digits@.len() - i,
        {
            let d = digits[i];
            assert(digits@.subrange(0, i + 1).drop_last() =~= digits@.subrange(0, i as int));
            if d < 48 || d > 57 {
                assert(!all_digits(digits@)) by {
                    assert(digits@[i as int] == d);
                }
                return Err(error);
            }
            let next = match value.checked_mul(10) {
                Some(v) => v.checked_add((d - 48) as usize),
                None => None,
            };
            assert(decimal_value(digits@.subrange(0, i + 1)) == 10 * value + (d - 48));
            match next {
                Some(v) => value = v,
                None => {
                    proof {
                        if all_digits(digits@) {
                            lemma_decimal_grows(digits@, i + 1);
                        }
                    }
                    return Err(error);
                },
            }
            i = i + 1;
        }
        assert(digits@.subrange(0, i as int) =~= digits@);
        Ok(value)
    }

    /// The view the client is on.
    pub fn current_buffer_view_handle(&self) -> (r: Result<BufferViewHandle, CommandError>)
        ensures
            match self.buffer_view_handle {
                Some(h) => r == Ok::<BufferViewHandle, CommandError>(h),
                None => r matches Err(CommandError::NoBufferOpened),
            },
    {
        match self.buffer_view_handle {
            Some(handle) => Ok(handle),
            None => Err(CommandError::NoBufferOpened),
        }
    }

    /// The buffer of the view the client is on.
    pub fn current_buffer_handle(&self, views: &BufferViewCollection) -> (r: Result<BufferHandle, CommandError>)
        ensures
            match self.buffer_view_handle {
                Some(h) => match views.get_spec(h) {
                    Some(v) => r == Ok::<BufferHandle, CommandError>(v.buffer_handle),
                    None => r matches Err(CommandError::NoBufferOpened),
                },
                None => r matches Err(CommandError::NoBufferOpened),
            },
    {
        let handle = self.current_buffer_view_handle()?;
        match views.get(handle) {
            Some(view) => Ok(view.buffer_handle),
            None => Err(CommandError::NoBufferOpened),
        }
    }

    /// Refuses when some buffer has unsaved changes, unless `!` was given.
    pub fn assert_can_discard_all_buffers(&self, buffers: &BufferCollection) -> (r: Result<(), CommandError>)
        ensures
            r is Ok <==> (self.bang || !exists|i: int| 0 <= i < buffers.slots().len() && (#[trigger] buffers.slots()[i] matches Some(b) && b.needs_save)),
            r matches Err(e) ==> e matches CommandError::UnsavedChanges,
    {
        if self.bang || !buffers.any_needs_save() {
            Ok(())
        } else {
            Err(CommandError::UnsavedChanges)
        }
    }

    /// Refuses when the buffer is gone, or has unsaved changes and no `!` was
    /// given.
    pub fn assert_can_discard_buffer(&self, buffers: &BufferCollection, handle: BufferHandle) -> (r: Result<(), CommandError>)
        requires
            buffers.wf(),
        ensures
            match buffers.get_spec(handle) {
                None => (r matches Err(CommandError::InvalidBufferHandle(h)) && h == handle),
                Some(b) => if self.bang || !b.needs_save { r is Ok } else { r matches Err(CommandError::UnsavedChanges) },
            },
    {
        let buffer = match buffers.get(handle) {
            Some(buffer) => buffer,
            None => return Err(CommandError::InvalidBufferHandle(handle)),
        };
        if self.bang || !buffer.needs_save {
            Ok(())
        } else {
            Err(CommandError::UnsavedChanges)
        }
    }
}

pub enum CommandOperation {
    Quit,
    QuitAll,
}

pub enum CompletionSource {
    Files,
    Buffers,
    Commands,
    Custom(Vec<String>),
}

/// The part of the command text that an error points at, if any.
pub open spec fn error_range(e: CommandError) -> Option<TextRange> {
    match e {
        CommandError::ParseError(p) => match p {
            CommandParseError::InvalidCommandName(r) => Some(r),
            CommandParseError::CommandNotFound(r) => Some(r),
            CommandParseError::CommandDoesNotAcceptBang(r) => Some(r),
            CommandParseError::UnterminatedArgument(r) => Some(r),
            CommandParseError::InvalidArgument(r) => Some(r),
            CommandParseError::TooFewArguments(r, _) => Some(r),
            CommandParseError::TooManyArguments(r, _) => Some(r),
        },
        CommandError::InvalidPath(r) => Some(r),
        CommandError::ParseArgError { arg, .. } => Some(arg),
        CommandError::ConfigNotFound(r) => Some(r),
        CommandError::InvalidConfigValue { value, .. } => Some(value),
        CommandError::ColorNotFound(r) => Some(r),
        CommandError::InvalidColorValue { value, .. } => Some(value),
        CommandError::InvalidGlob(r) => Some(r),
        CommandError::InvalidModeError(r) => Some(r),
        CommandError::InvalidRegisterKey(r) => Some(r),
        _ => None,
    }
}

/// The command, then a line with a caret under each byte of `r`.
pub open spec fn caret_block(t: Seq<u8>, r: TextRange) -> Seq<u8> {
    t + seq![NEWLINE_BYTE] + Seq::new(r.start as nat, |i: int| 32u8) + Seq::new((r.end - r.start) as nat, |i: int| 94u8)
        + seq![NEWLINE_BYTE]
}

pub const NEWLINE_BYTE: u8 = 10;

fn push_repeated(out: &mut Vec<u8>, b: u8, n: usize)
    ensures
        final(out)@ == old(out)@ + Seq::new(n as nat, |i: int| b),
{
    let mut k: usize = 0;
    while k < n
        invariant
            k <= n,
            out@ == old(out)@ + Seq::new(k as nat, |i: int| b),
        decreases n - k,
    {
        out.push(b);
        k = k + 1;
        assert(out@ =~= old(out)@ + Seq::new(k as nat, |i: int| b));
    }
}

fn push_text(out: &mut Vec<u8>, s: &str)
    ensures
        final(out)@ == old(out)@ + s.spec_bytes(),
{
    push_all(out, s.as_bytes());
}

fn push_range(out: &mut Vec<u8>, t: &[u8], r: TextRange)
    requires
        r.start <= r.end <= t@.len(),
    ensures
        final(out)@ == old(out)@ + t@.subrange(r.start as int, r.end as int),
{
    push_all(out, copy_range(t, r.start, r.end).as_slice());
}

/// The decimal digits of `n`.
pub open spec fn decimal_bytes(n: nat) -> Seq<u8>
    decreases n,
{
    if n >= 10 {
        decimal_bytes(n / 10) + seq![(48 + n % 10) as u8]
    } else {
        seq![(48 + n) as u8]
    }
}

/// The bytes `r` of `t`, or nothing when `r` is not a range of `t`.
pub open spec fn quoted(t: Seq<u8>, r: TextRange) -> Seq<u8> {
    if r.start <= r.end <= t.len() { t.subrange(r.start as int, r.end as int) } else { Seq::empty() }
}

/// What an error says, after the lines that point into the command `t`.
pub open spec fn message_of(e: CommandError, t: Seq<u8>) -> Seq<u8> {
    match e {
        CommandError::Aborted => Seq::empty(),
        CommandError::ParseError(p) => match p {
            CommandParseError::InvalidCommandName(r) => "invalid command name '".spec_bytes() + quoted(t, r) + "'".spec_bytes(),
            CommandParseError::CommandNotFound(r) => "no such command '".spec_bytes() + quoted(t, r) + "'".spec_bytes(),
            CommandParseError::CommandDoesNotAcceptBang(r) => "command '".spec_bytes() + quoted(t, r) + "' does not accept bang".spec_bytes(),
            CommandParseError::UnterminatedArgument(_) => "unterminated argument".spec_bytes(),
            CommandParseError::InvalidArgument(r) => "invalid argument '".spec_bytes() + quoted(t, r) + "'".spec_bytes(),
            CommandParseError::TooFewArguments(_, n) => "command expects ".spec_bytes() + decimal_bytes(n as nat) + " parameters".spec_bytes(),
            CommandParseError::TooManyArguments(_, n) => "command expects ".spec_bytes() + decimal_bytes(n as nat) + " parameters".spec_bytes(),
        },
        CommandError::CommandNotFound(_) => "no such command".spec_bytes(),
        CommandError::UnsavedChanges => "there are unsaved changes. try appending a '!' to command name to force execute".spec_bytes(),
        CommandError::NoBufferOpened => "no buffer opened".spec_bytes(),
        CommandError::InvalidBufferHandle(h) => "invalid buffer handle ".spec_bytes() + decimal_bytes(h.0 as nat),
        CommandError::InvalidPath(r) => "invalid path '".spec_bytes() + quoted(t, r) + "'".spec_bytes(),
        CommandError::ParseArgError { arg, expected } => "could not parse '".spec_bytes() + quoted(t, arg) + "' as ".spec_bytes() + expected.spec_bytes(),
        CommandError::ConfigNotFound(r) => "no such config '".spec_bytes() + quoted(t, r) + "'".spec_bytes(),
        CommandError::InvalidConfigValue { key, value } => "invalid value '".spec_bytes() + quoted(t, value) + "' for config '".spec_bytes() + quoted(t, key) + "'".spec_bytes(),
        CommandError::ColorNotFound(r) => "no such theme color '".spec_bytes() + quoted(t, r) + "'".spec_bytes(),
        CommandError::InvalidColorValue { key, value } => "invalid value '".spec_bytes() + quoted(t, value) + "' for theme color '".spec_bytes() + quoted(t, key) + "'".spec_bytes(),
        CommandError::InvalidGlob(r) => "invalid glob '".spec_bytes() + quoted(t, r) + "'".spec_bytes(),
        CommandError::InvalidModeError(r) => "no such mode '".spec_bytes() + quoted(t, r) + "'".spec_bytes(),
        CommandError::InvalidRegisterKey(r) => "invalid register key '".spec_bytes() + quoted(t, r) + "'".spec_bytes(),
        CommandError::LspServerNotRunning => "lsp server not running".spec_bytes(),
    }
}

/// The whole rendering of an error for the command `t`: the caret block
/// when the error points at a range of `t`, then the message.
pub open spec fn rendering_of(e: CommandError, t: Seq<u8>) -> Seq<u8> {
    let head = match error_range(e) {
        Some(range) => if range.start <= range.end <= t.len() { caret_block(t, range) } else { Seq::empty() },
        None => Seq::empty(),
    };
    head + message_of(e, t)
}

fn push_decimal(out: &mut Vec<u8>, n: usize)
    ensures
        final(out)@ == old(out)@ + decimal_bytes(n as nat),
    decreases n,
{
    if n >= 10 {
        push_decimal(out, n / 10);
    }
    out.push(48 + (n % 10) as u8);
    assert(final(out)@ =~= old(out)@ + decimal_bytes(n as nat));
}

impl CommandError {
    /// The message for the user: for an error about a part of the command,
    /// the command, a line of carets under that part, then what went wrong.
    pub fn display(&self, command: &str) -> (r: Vec<u8>)
        ensures
            r@ == rendering_of(*self, command.spec_bytes()),
    {
        let t = str_bytes(command);
        let mut out: Vec<u8> = Vec::new();
        let range = match self {
            CommandError::ParseError(p) => match p {
                CommandParseError::InvalidCommandName(r) => Some(*r),
                CommandParseError::CommandNotFound(r) => Some(*r),
                CommandParseError::CommandDoesNotAcceptBang(r) => Some(*r),
                CommandParseError::UnterminatedArgument(r) => Some(*r),
                CommandParseError::InvalidArgument(r) => Some(*r),
                CommandParseError::TooFewArguments(r, _) => Some(*r),
                CommandParseError::TooManyArguments(r, _) => Some(*r),
            },
            CommandError::InvalidPath(r) => Some(*r),
            CommandError::ParseArgError { arg, .. } => Some(*arg),
            CommandError::ConfigNotFound(r) => Some(*r),
            CommandError::InvalidConfigValue { value, .. } => Some(*value),
            CommandError::ColorNotFound(r) => Some(*r),
            CommandError::InvalidColorValue { value, .. } => Some(*value),
            CommandError::InvalidGlob(r) => Some(*r),
            CommandError::InvalidModeError(r) => Some(*r),
            CommandError::InvalidRegisterKey(r) => Some(*r),
            _ => None,
        };
        let valid = match range {
            Some(r) => r.start <= r.end && r.end <= t.len(),
            None => false,
        };
        if valid {
            let r = range.unwrap();
            push_all(&mut out, t.as_slice());
            out.push(NEWLINE_BYTE);
            push_repeated(&mut out, 32, r.start);
            push_repeated(&mut out, 94, r.end - r.start);
            out.push(NEWLINE_BYTE);
            assert(out@ =~= caret_block(t@, r));
        }
        let ghost prefix = out@;
        let mut msg: Vec<u8> = Vec::new();
        let tb = t.as_slice();
        match self {
            CommandError::Aborted => {},
            CommandError::ParseError(p) => match p {
                CommandParseError::InvalidCommandName(r) => {
                    push_text(&mut msg, "invalid command name '");
                    if valid { push_range(&mut msg, tb, *r); }
                    push_text(&mut msg, "'");
                },
                CommandParseError::CommandNotFound(r) => {
                    push_text(&mut msg, "no such command '");
                    if valid { push_range(&mut msg, tb, *r); }
                    push_text(&mut msg, "'");
                },
                CommandParseError::CommandDoesNotAcceptBang(r) => {
                    push_text(&mut msg, "command '");
                    if valid { push_range(&mut msg, tb, *r); }
                    push_text(&mut msg, "' does not accept bang");
                },
                CommandParseError::UnterminatedArgument(_) => push_text(&mut msg, "unterminated argument"),
                CommandParseError::InvalidArgument(r) => {
                    push_text(&mut msg, "invalid argument '");
                    if valid { push_range(&mut msg, tb, *r); }
                    push_text(&mut msg, "'");
                },
                CommandParseError::TooFewArguments(_, n) | CommandParseError::TooManyArguments(_, n) => {
                    push_text(&mut msg, "command expects ");
                    push_decimal(&mut msg, *n);
                    push_text(&mut msg, " parameters");
                },
            },
            CommandError::CommandNotFound(_) => push_text(&mut msg, "no such command"),
            CommandError::UnsavedChanges => push_text(&mut msg, "there are unsaved changes. try appending a '!' to command name to force execute"),
            CommandError::NoBufferOpened => push_text(&mut msg, "no buffer opened"),
            CommandError::InvalidBufferHandle(h) => {
                push_text(&mut msg, "invalid buffer handle ");
                push_decimal(&mut msg, h.0 as usize);
            },
            CommandError::InvalidPath(r) => {
                push_text(&mut msg, "invalid path '");
                if valid { push_range(&mut msg, tb, *r); }
                push_text(&mut msg, "'");
            },
            CommandError::ParseArgError { arg, expected } => {
                push_text(&mut msg, "could not parse '");
                if valid { push_range(&mut msg, tb, *arg); }
                push_text(&mut msg, "' as ");
                push_text(&mut msg, expected);
            },
            CommandError::ConfigNotFound(r) => {
                push_text(&mut msg, "no such config '");
                if valid { push_range(&mut msg, tb, *r); }
                push_text(&mut msg, "'");
            },
            CommandError::InvalidConfigValue { key, value } => {
                push_text(&mut msg, "invalid value '");
                if valid { push_range(&mut msg, tb, *value); }
                push_text(&mut msg, "' for config '");
                if key.start <= key.end && key.end <= tb.len() { push_range(&mut msg, tb, *key); }
                push_text(&mut msg, "'");
            },
            CommandError::ColorNotFound(r) => {
                push_text(&mut msg, "no such theme color '");
                if valid { push_range(&mut msg, tb, *r); }
                push_text(&mut msg, "'");
            },
            CommandError::InvalidColorValue { key, value } => {
                push_text(&mut msg, "invalid value '");
                if valid { push_range(&mut msg, tb, *value); }
                push_text(&mut msg, "' for theme color '");
                if key.start <= key.end && key.end <= tb.len() { push_range(&mut msg, tb, *key); }
                push_text(&mut msg, "'");
            },
            CommandError::InvalidGlob(r) => {
                push_text(&mut msg, "invalid glob '");
                if valid { push_range(&mut msg, tb, *r); }
                push_text(&mut msg, "'");
            },
            CommandError::InvalidModeError(r) => {
                push_text(&mut msg, "no such mode '");
                if valid { push_range(&mut msg, tb, *r); }
                push_text(&mut msg, "'");
            },
            CommandError::InvalidRegisterKey(r) => {
                push_text(&mut msg, "invalid register key '");
                if valid { push_range(&mut msg, tb, *r); }
                push_text(&mut msg, "'");
            },
            CommandError::LspServerNotRunning => push_text(&mut msg, "lsp server not running"),
        }
        assert(msg@ =~= message_of(*self, t@));
        push_all(&mut out, msg.as_slice());
        out
    }
}

} // verus!

verus! {

/// Arguments written out for a command line: each after a space, between
/// double quotes.
pub open spec fn emit_quoted(args: Seq<Seq<u8>>) -> Seq<u8>
    decreases args.len(),
{
    if args.len() == 0 {
        Seq::empty()
    } else {
        seq![32u8, 34u8] + args[0] + seq![34u8] + emit_quoted(args.drop_first())
    }
}

pub open spec fn no_double_quote(a: Seq<u8>) -> bool {
    forall|i: int| 0 <= i < a.len() ==> a[i] != 34
}

proof fn lemma_find_quote(t: Seq<u8>, j: int, m: int)
    requires
        0 <= j,
        0 <= m,
        j + m < t.len(),
        forall|i: int| j <= i < j + m ==> t[i] != 34,
        t[j + m] == 34,
    ensures
        find_byte(t, j, 34) == Some(j + m),
    decreases m,
{
    if m > 0 {
        lemma_find_quote(t, j + 1, m - 1);
    }
}

/// Parsing arguments that were written out between double quotes gives back
/// exactly those arguments, as text tokens, in order.
pub proof fn lemma_quoted_args_parse_back(p: Seq<u8>, args: Seq<Seq<u8>>)
    requires
        forall|i: int| 0 <= i < args.len() ==> no_double_quote(#[trigger] args[i]),
        (p + emit_quoted(args)).len() <= usize::MAX,
    ensures
        ({
            let t = p + emit_quoted(args);
            let ts = tokens_from(t, p.len() as int);
            &&& ts.len() == args.len()
            &&& forall|i: int| 0 <= i < args.len() ==> (#[trigger] ts[i]).kind == CommandTokenKind::Text
                && t.subrange(ts[i].start as int, ts[i].end as int) == args[i]
        }),
    decreases args.len(),
{
    let t = p + emit_quoted(args);
    let k = p.len() as int;
    if args.len() == 0 {
        assert(t =~= p);
        assert(skip_separators(t, k) == k);
        assert(tokens_from(t, k).len() == 0);
    } else {
        let a = args[0];
        let rest = args.drop_first();
        let p2 = p + seq![32u8, 34u8] + a + seq![34u8];
        assert(t =~= p2 + emit_quoted(rest));
        assert(t[k] == 32);
        assert(t[k + 1] == 34);
        assert(skip_separators(t, k + 1) == k + 1);
        assert(skip_separators(t, k) == k + 1);
        let m = a.len() as int;
        assert forall|i: int| k + 2 <= i < k + 2 + m implies t[i] != 34 by {
            assert(t[i] == a[i - k - 2]);
        }
        assert(t[k + 2 + m] == 34);
        lemma_find_quote(t, k + 2, m);
        let tok = CommandToken { kind: CommandTokenKind::Text, start: (k + 2) as usize, end: (k + 2 + m) as usize };
        assert(spec_next_token(t, k) == Some((tok, k + 3 + m)));
        assert forall|i: int| 0 <= i < rest.len() implies no_double_quote(#[trigger] rest[i]) by {
            assert(rest[i] == args[i + 1]);
        }
        lemma_quoted_args_parse_back(p2, rest);
        assert(p2.len() == k + 3 + m);
        assert(tokens_from(t, k) == seq![tok] + tokens_from(t, k + 3 + m));
        assert(t.subrange(k + 2, k + 2 + m) =~= a);
        let ts = tokens_from(t, k);
        assert forall|i: int| 0 <= i < args.len() implies (#[trigger] ts[i]).kind == CommandTokenKind::Text
            && t.subrange(ts[i].start as int, ts[i].end as int) == args[i] by {
            if i > 0 {
                assert(ts[i] == tokens_from(t, k + 3 + m)[i - 1]);
                assert(args[i] == rest[i - 1]);
            }
        }
    }
}

} // verus!

verus! {

/// The commands of `t` from byte `k` on, one range each.
pub open spec fn commands_from(t: Seq<u8>, k: int) -> Seq<TextRange>
    decreases t.len() - k,
{
    match spec_next_command(t, k) {
        None => Seq::empty(),
        Some((r, n)) => if k < n <= t.len() { seq![r] + commands_from(t, n) } else { seq![r] },
    }
}

/// A command line that needs no escaping: not empty, starting with a byte
/// that is not blank, with no newline, `#` or backslash in it.
pub open spec fn plain_command(c: Seq<u8>) -> bool {
    &&& c.len() > 0
    &&& !spec_is_blank(c[0])
    &&& forall|i: int| 0 <= i < c.len() ==> c[i] != 10 && c[i] != 35 && c[i] != 92
}

/// The commands joined by newlines.
pub open spec fn join_commands(cmds: Seq<Seq<u8>>) -> Seq<u8>
    decreases cmds.len(),
{
    if cmds.len() == 0 {
        Seq::empty()
    } else if cmds.len() == 1 {
        cmds[0]
    } else {
        cmds[0] + seq![10u8] + join_commands(cmds.drop_first())
    }
}

proof fn lemma_skip_blank_run(t: Seq<u8>, k: int, m: int)
    requires
        0 <= k <= m <= t.len(),
        forall|j: int| k <= j < m ==> spec_is_blank(t[j]),
        m < t.len() ==> !spec_is_blank(t[m]),
    ensures
        skip_blanks(t, k) == m,
    decreases m - k,
{
    if k < m {
        lemma_skip_blank_run(t, k + 1, m);
    }
}

proof fn lemma_command_run(t: Seq<u8>, k: int, m: int)
    requires
        0 <= k <= m <= t.len(),
        forall|j: int| k <= j < m ==> t[j] != 10 && t[j] != 35 && t[j] != 92,
        m < t.len() ==> t[m] == 10,
    ensures
        command_end(t, k) == m,
    decreases m - k,
{
    if k < m {
        lemma_command_run(t, k + 1, m);
    }
}

/// Splitting commands joined by newlines, after any blanks, gives back each
/// command, in order.
pub proof fn lemma_joined_commands_split_back(p: Seq<u8>, b: Seq<u8>, cmds: Seq<Seq<u8>>)
    requires
        forall|i: int| 0 <= i < cmds.len() ==> plain_command(#[trigger] cmds[i]),
        forall|i: int| 0 <= i < b.len() ==> spec_is_blank(#[trigger] b[i]),
        (p + b + join_commands(cmds)).len() <= usize::MAX,
    ensures
        ({
            let t = p + b + join_commands(cmds);
            let rs = commands_from(t, p.len() as int);
            &&& rs.len() == cmds.len()
            &&& forall|i: int| 0 <= i < cmds.len() ==> t.subrange((#[trigger] rs[i]).start as int, rs[i].end as int) == cmds[i]
        }),
    decreases cmds.len(),
{
    let t = p + b + join_commands(cmds);
    let k = p.len() as int;
    let s = k + b.len();
    if cmds.len() == 0 {
        assert(t =~= p + b);
        lemma_skip_blank_run(t, k, s);
        assert(commands_from(t, k).len() == 0);
    } else {
        let c0 = cmds[0];
        let rest = cmds.drop_first();
        let m = c0.len() as int;
        if cmds.len() == 1 {
            assert(t =~= p + b + c0);
        } else {
            assert(t =~= p + b + c0 + seq![10u8] + join_commands(rest));
        }
        assert forall|j: int| k <= j < s implies spec_is_blank(t[j]) by {
            assert(t[j] == b[j - k]);
        }
        assert(t[s] == c0[0]);
        lemma_skip_blank_run(t, k, s);
        assert forall|j: int| s <= j < s + m implies t[j] != 10 && t[j] != 35 && t[j] != 92 by {
            assert(t[j] == c0[j - s]);
        }
        lemma_command_run(t, s, s + m);
        assert(t.subrange(s, s + m) =~= c0);
        let r = TextRange { start: s as usize, end: (s + m) as usize };
        if cmds.len() == 1 {
            assert(t.len() == s + m);
            assert(spec_next_command(t, k) == Some((r, t.len() as int)));
            assert(commands_from(t, t.len() as int).len() == 0);
            assert(commands_from(t, k) =~= seq![r]);
        } else {
            assert(t[s + m] == 10);
            assert(spec_next_command(t, k) == Some((r, s + m)));
            let p2 = p + b + c0;
            let b2 = seq![10u8];
            assert(t =~= p2 + b2 + join_commands(rest));
            assert forall|i: int| 0 <= i < rest.len() implies plain_command(#[trigger] rest[i]) by {
                assert(rest[i] == cmds[i + 1]);
            }
            lemma_joined_commands_split_back(p2, b2, rest);
            assert(p2.len() == s + m);
            let rs = commands_from(t, k);
            assert(rs == seq![r] + commands_from(t, s + m));
            assert forall|i: int| 0 <= i < cmds.len() implies t.subrange((#[trigger] rs[i]).start as int, rs[i].end as int) == cmds[i] by {
                if i > 0 {
                    assert(rs[i] == commands_from(t, s + m)[i - 1]);
                    assert(cmds[i] == rest[i - 1]);
                }
            }
        }
    }
}

} // verus!
