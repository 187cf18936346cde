//! The command protocol engine: one line of text in, a typed operation with
//! bound arguments out.  The verb is matched case-insensitively; remaining
//! tokens are bound positionally, and extra tokens are space-joined into a
//! trailing `other` argument.

use vstd::prelude::*;
use crate::database::{DataBaseManager, DbModel, set_spec, clear_spec, remove_spec, lookup_spec,
    empty_db};
use crate::value::{DataValue, DictBody, ValueModel, DictModel, dict_map, dict_set_model,
    literal_model, parse_value_type};
use crate::server::ConnectionRegistry;

verus! {

/// The closed set of command verbs.
#[derive(Debug, Clone, Copy, PartialEq, Eq, Structural)]
pub enum HandleType {
    GET,
    SET,
    REMOVE,
    CLEAN,
    SELECT,
    DICT,
}

impl HandleType {
    /// The canonical upper-case spelling of the verb.
    pub open spec fn name_spec(self) -> Seq<char> {
        match self {
            HandleType::GET => "GET"@,
            HandleType::SET => "SET"@,
            HandleType::REMOVE => "REMOVE"@,
            HandleType::CLEAN => "CLEAN"@,
            HandleType::SELECT => "SELECT"@,
            HandleType::DICT => "DICT"@,
        }
    }

    pub fn to_string(&self) -> (r: String)
        ensures
            r@ == self.name_spec(),
    {
        match self {
            HandleType::GET => "GET".to_owned(),
            HandleType::SET => "SET".to_owned(),
            HandleType::REMOVE => "REMOVE".to_owned(),
            HandleType::CLEAN => "CLEAN".to_owned(),
            HandleType::SELECT => "SELECT".to_owned(),
            HandleType::DICT => "DICT".to_owned(),
        }
    }
}

/// A parse error, reported to the issuing connection as a response line.
#[derive(Debug, PartialEq)]
pub enum ParseError {
    EmptyInput,
    UnknownCommand(String),
    MissingParameters(HandleType),
}

impl ParseError {
    pub open spec fn message_spec(self) -> Seq<char> {
        match self {
            ParseError::EmptyInput => "empty input"@,
            ParseError::UnknownCommand(v) => "unknown command: "@ + v@,
            ParseError::MissingParameters(t) => "missing parameters: "@ + t.name_spec(),
        }
    }

    /// The failure description this error is reported with.
    pub fn message(&self) -> (r: String)
        ensures
            r@ == self.message_spec(),
    {
        match self {
            ParseError::EmptyInput => "empty input".to_owned(),
            ParseError::UnknownCommand(v) => {
                let mut m = "unknown command: ".to_owned();
                m.append(v.as_str());
                m
            },
            ParseError::MissingParameters(t) => {
                let mut m = "missing parameters: ".to_owned();
                let name = t.to_string();
                m.append(name.as_str());
                m
            },
        }
    }
}

/// The parse result: a verb and its bound arguments, in binding order.
#[derive(Debug)]
pub struct ParseMeta {
    pub handle_type: HandleType,
    pub sub_argument: Vec<(String, String)>,
}

/// The views of a binding list.
pub open spec fn arg_views(s: Seq<(String, String)>) -> Seq<(Seq<char>, Seq<char>)> {
    s.map_values(|p: (String, String)| (p.0@, p.1@))
}

impl ParseMeta {
    pub open spec fn args(self) -> Seq<(Seq<char>, Seq<char>)> {
        arg_views(self.sub_argument@)
    }

    pub fn new() -> (r: ParseMeta)
        ensures
            r.handle_type == HandleType::SELECT,
            r.args() == Seq::<(Seq<char>, Seq<char>)>::empty(),
    {
        let r = ParseMeta { handle_type: HandleType::SELECT, sub_argument: Vec::new() };
        proof {
            assert(r.args() =~= Seq::<(Seq<char>, Seq<char>)>::empty());
        }
        r
    }

    /// First binding for `name`, if any.
    pub fn get_argument<'a>(&'a self, name: &str) -> (r: Option<&'a String>)
        ensures
            match r {
                Some(v) => args_lookup(self.args(), name@) == Some(v@),
                None => args_lookup(self.args(), name@) is None,
            },
    {
        let mut i: usize = 0;
        let n = self.sub_argument.len();
        proof {
            assert(self.args().skip(0) =~= self.args());
        }
        while i < n
            invariant
                0 <= i <= n,
                n == self.sub_argument.len(),
                args_lookup(self.args(), name@) == args_lookup(self.args().skip(i as int), name@),
            decreases n - i,
        {
            let ghost pre = self.args().skip(i as int);
            if crate::value::str_eq(self.sub_argument[i].0.as_str(), name) {
                return Some(&self.sub_argument[i].1);
            }
            proof {
                assert(pre.skip(1) =~= self.args().skip(i + 1));
            }
            i += 1;
        }
        None
    }
}

/// First-match lookup in a binding list.
pub open spec fn args_lookup(args: Seq<(Seq<char>, Seq<char>)>, name: Seq<char>) -> Option<
    Seq<char>,
>
    decreases args.len(),
{
    if args.len() == 0 {
        None
    } else if args[0].0 == name {
        Some(args[0].1)
    } else {
        args_lookup(args.skip(1), name)
    }
}

// ---- splitting a line into tokens ----

/// Index of the last space in `s`, or -1 if there is none.
pub open spec fn rfind_sp(s: Seq<char>) -> int
    decreases s.len(),
{
    if s.len() == 0 {
        -1
    } else if s.last() == ' ' {
        s.len() - 1
    } else {
        rfind_sp(s.drop_last())
    }
}

/// The space-separated tokens of `s`, empty pieces kept.
pub open spec fn split_sp(s: Seq<char>) -> Seq<Seq<char>>
    decreases s.len(),
{
    let l = rfind_sp(s);
    if 0 <= l < s.len() {
        split_sp(s.subrange(0, l)) + seq![s.skip(l + 1)]
    } else {
        seq![s]
    }
}

proof fn lemma_split_len(s: Seq<char>)
    ensures
        split_sp(s).len() >= 1,
    decreases s.len(),
{
    let l = rfind_sp(s);
    if 0 <= l < s.len() {
        lemma_split_len(s.subrange(0, l));
    }
}

proof fn lemma_split_push_sp(s: Seq<char>)
    ensures
        split_sp(s.push(' ')) == split_sp(s) + seq![Seq::<char>::empty()],
{
    let t = s.push(' ');
    assert(t.last() == ' ');
    assert(rfind_sp(t) == s.len());
    assert(t.subrange(0, s.len() as int) =~= s);
    assert(t.skip(s.len() as int + 1) =~= Seq::<char>::empty());
}

proof fn lemma_split_push_c(s: Seq<char>, c: char)
    requires
        c != ' ',
    ensures
        split_sp(s).len() >= 1,
        split_sp(s.push(c)) == split_sp(s).update(
            split_sp(s).len() - 1,
            split_sp(s)[split_sp(s).len() - 1].push(c),
        ),
{
    lemma_split_len(s);
    let t = s.push(c);
    assert(t.drop_last() =~= s);
    assert(rfind_sp(t) == rfind_sp(s));
    let l = rfind_sp(s);
    if 0 <= l < s.len() {
        assert(t.subrange(0, l) =~= s.subrange(0, l));
        assert(t.skip(l + 1) =~= s.skip(l + 1).push(c));
        assert(split_sp(t) =~= split_sp(s).update(
            split_sp(s).len() - 1,
            split_sp(s)[split_sp(s).len() - 1].push(c),
        ));
    } else {
        assert(l == -1) by {
            lemma_rfind_range(s);
        }
        assert(split_sp(t) =~= seq![t]);
        assert(split_sp(t) =~= split_sp(s).update(0, s.push(c)));
    }
}

proof fn lemma_rfind_range(s: Seq<char>)
    ensures
        -1 <= rfind_sp(s) < s.len(),
    decreases s.len(),
{
    if s.len() > 0 && s.last() != ' ' {
        lemma_rfind_range(s.drop_last());
    }
}

/// The token views of a vector of strings.
pub open spec fn token_views(ts: Seq<String>) -> Seq<Seq<char>> {
    ts.map_values(|t: String| t@)
}

/// Splits a line on single spaces, keeping empty pieces.
pub fn tokenize(s: &str) -> (r: Vec<String>)
    ensures
        token_views(r@) == split_sp(s@),
        r@.len() >= 1,
{
    let n = s.unicode_len();
    let mut toks: Vec<String> = Vec::new();
    let mut st: usize = 0;
    let mut i: usize = 0;
    proof {
        assert(token_views(toks@) + seq![s@.subrange(0, 0)] =~= split_sp(s@.subrange(0, 0)));
    }
    while i < n
        invariant
            0 <= st <= i <= n,
            n == s@.len(),
            token_views(toks@) + seq![s@.subrange(st as int, i as int)] == split_sp(
                s@.subrange(0, i as int),
            ),
        decreases n - i,
    {
        let ghost pre = s@.subrange(0, i as int);
        let c = s.get_char(i);
        proof {
            assert(s@.subrange(0, i as int + 1) =~= pre.push(s@[i as int]));
        }
        if c == ' ' {
            let tok = s.substring_char(st, i);
            toks.push(tok.to_owned());
            proof {
                lemma_split_push_sp(pre);
                assert(token_views(toks@) =~= token_views(toks@.drop_last()).push(
                    s@.subrange(st as int, i as int),
                ));
                assert(token_views(toks@) + seq![s@.subrange(i as int + 1, i as int + 1)]
                    =~~= split_sp(s@.subrange(0, i as int + 1)));
            }
            st = i + 1;
        } else {
            proof {
                lemma_split_push_c(pre, s@[i as int]);
                assert(s@.subrange(st as int, i as int + 1) =~= s@.subrange(
                    st as int,
                    i as int,
                ).push(s@[i as int]));
                let old_split = split_sp(pre);
                assert(token_views(toks@) + seq![s@.subrange(st as int, i as int + 1)]
                    =~= old_split.update(
                    old_split.len() - 1,
                    old_split[old_split.len() - 1].push(s@[i as int]),
                ));
            }
        }
        i += 1;
    }
    let tok = s.substring_char(st, n);
    toks.push(tok.to_owned());
    proof {
        assert(s@.subrange(0, n as int) =~= s@);
        assert(token_views(toks@) =~= token_views(toks@.drop_last()).push(
            s@.subrange(st as int, n as int),
        ));
        assert(token_views(toks@) =~= split_sp(s@));
    }
    toks
}

// ---- case-insensitive verb matching ----

/// The code point of `c` with an ASCII lower-case letter raised.
pub open spec fn upper_cp(c: char) -> u32 {
    if 97 <= c as u32 <= 122 {
        (c as u32 - 32) as u32
    } else {
        c as u32
    }
}

/// Equality of two character sequences, ignoring ASCII case.
pub open spec fn eq_ci(a: Seq<char>, b: Seq<char>) -> bool {
    a.len() == b.len() && forall|i: int| 0 <= i < a.len() ==> upper_cp(a[i]) == upper_cp(b[i])
}

/// Compares a token to a verb, ignoring ASCII case.
pub fn verb_matches(token: &str, verb: &str) -> (r: bool)
    ensures
        r == eq_ci(token@, verb@),
{
    let nt = token.unicode_len();
    let nv = verb.unicode_len();
    if nt != nv {
        return false;
    }
    let mut i: usize = 0;
    while i < nt
        invariant
            0 <= i <= nt,
            nt == token@.len(),
            nv == verb@.len(),
            nt == nv,
            forall|j: int| 0 <= j < i ==> upper_cp(token@[j]) == upper_cp(verb@[j]),
        decreases nt - i,
    {
        let a = token.get_char(i) as u32;
        let b = verb.get_char(i) as u32;
        let ua: u32 = if 97 <= a && a <= 122 {
            a - 32
        } else {
            a
        };
        let ub: u32 = if 97 <= b && b <= 122 {
            b - 32
        } else {
            b
        };
        if ua != ub {
            return false;
        }
        i += 1;
    }
    true
}

/// The verb a token denotes, ignoring ASCII case.
pub open spec fn verb_type(tok: Seq<char>) -> Option<HandleType> {
    if eq_ci(tok, "GET"@) {
        Some(HandleType::GET)
    } else if eq_ci(tok, "SET"@) {
        Some(HandleType::SET)
    } else if eq_ci(tok, "REMOVE"@) {
        Some(HandleType::REMOVE)
    } else if eq_ci(tok, "CLEAN"@) {
        Some(HandleType::CLEAN)
    } else if eq_ci(tok, "SELECT"@) {
        Some(HandleType::SELECT)
    } else if eq_ci(tok, "DICT"@) {
        Some(HandleType::DICT)
    } else {
        None
    }
}

// ---- binding the remaining tokens ----

/// The ordered positional parameter names each verb requires.
pub open spec fn required_names(t: HandleType) -> Seq<Seq<char>> {
    match t {
        HandleType::GET => seq!["key"@],
        HandleType::SET => seq!["key"@, "value"@],
        HandleType::REMOVE => seq!["key"@],
        HandleType::CLEAN => Seq::empty(),
        HandleType::SELECT => seq!["database"@],
        HandleType::DICT => seq!["key"@, "operation"@],
    }
}

fn required_names_exec(t: HandleType) -> (r: Vec<String>)
    ensures
        token_views(r@) == required_names(t),
{
    let r: Vec<String> = match t {
        HandleType::GET => vec!["key".to_owned()],
        HandleType::SET => vec!["key".to_owned(), "value".to_owned()],
        HandleType::REMOVE => vec!["key".to_owned()],
        HandleType::CLEAN => Vec::new(),
        HandleType::SELECT => vec!["database".to_owned()],
        HandleType::DICT => vec!["key".to_owned(), "operation".to_owned()],
    };
    proof {
        assert(token_views(r@) =~= required_names(t));
    }
    r
}

/// The extra tokens re-joined with single spaces, in original order.
pub open spec fn join_sp(ts: Seq<Seq<char>>) -> Seq<char>
    decreases ts.len(),
{
    if ts.len() == 0 {
        Seq::empty()
    } else if ts.len() == 1 {
        ts[0]
    } else {
        join_sp(ts.drop_last()) + seq![' '] + ts.last()
    }
}

/// The bindings produced for required names `names` from tokens `toks`,
/// assuming enough tokens; extras go to a trailing `other` binding.
pub open spec fn bind_args(names: Seq<Seq<char>>, toks: Seq<Seq<char>>) -> Seq<
    (Seq<char>, Seq<char>),
> {
    Seq::new(names.len(), |i: int| (names[i], toks[i])) + if toks.len() > names.len() {
        seq![("other"@, join_sp(toks.skip(names.len() as int)))]
    } else {
        Seq::empty()
    }
}

/// Appends one character to a string.
///
/// Relies on `String::push`, which appends the character at the end.
#[verifier::external_body]
fn push_char(s: &mut String, c: char)
    ensures
        final(s)@ == old(s)@.push(c),
{
    s.push(c);
}

/// Binds the tokens after the verb to the verb's required parameter names,
/// in order; extra tokens are space-joined into an `other` binding.
pub fn parse_sub_argument(command: &Vec<String>, operation: &HandleType) -> (r: Result<
    Vec<(String, String)>,
    ParseError,
>)
    ensures
        match r {
            Ok(args) => command@.len() >= required_names(*operation).len()
                && arg_views(args@) == bind_args(
                required_names(*operation),
                token_views(command@),
            ),
            Err(e) => e == ParseError::MissingParameters(*operation) && command@.len()
                < required_names(*operation).len(),
        },
{
    let names = required_names_exec(*operation);
    let k = names.len();
    if command.len() < k {
        return Err(ParseError::MissingParameters(*operation));
    }
    let mut args: Vec<(String, String)> = Vec::new();
    let mut i: usize = 0;
    while i < k
        invariant
            0 <= i <= k,
            k == names@.len(),
            command@.len() >= k,
            token_views(names@) == required_names(*operation),
            arg_views(args@) == Seq::new(
                i as nat,
                |j: int| (required_names(*operation)[j], token_views(command@)[j]),
            ),
        decreases k - i,
    {
        let ghost old_args = args@;
        args.push((names[i].clone(), command[i].clone()));
        proof {
            assert(arg_views(args@) =~= arg_views(old_args).push(
                (names@[i as int]@, command@[i as int]@),
            ));
            assert(arg_views(args@) =~= Seq::new(
                i as nat + 1,
                |j: int| (required_names(*operation)[j], token_views(command@)[j]),
            ));
        }
        i += 1;
    }
    if command.len() > k {
        let mut j: usize = k;
        let mut other = command[j].clone();
        j += 1;
        proof {
            assert(token_views(command@).subrange(k as int, k as int + 1) =~= seq![
                token_views(command@)[k as int],
            ]);
        }
        while j < command.len()
            invariant
                k < j <= command@.len(),
                k == required_names(*operation).len(),
                other@ == join_sp(token_views(command@).subrange(k as int, j as int)),
            decreases command@.len() - j,
        {
            let ghost pre = token_views(command@).subrange(k as int, j as int);
            push_char(&mut other, ' ');
            other.append(command[j].as_str());
            proof {
                let post = token_views(command@).subrange(k as int, j as int + 1);
                assert(post.drop_last() =~= pre);
                assert(other@ =~= join_sp(post));
            }
            j += 1;
        }
        let ghost old_args = args@;
        let ghost other_view = other@;
        args.push(("other".to_owned(), other));
        proof {
            assert(token_views(command@).subrange(k as int, command@.len() as int)
                =~= token_views(command@).skip(k as int));
            assert(arg_views(args@) =~= arg_views(old_args).push(("other"@, other_view)));
            assert(arg_views(args@) =~= bind_args(
                required_names(*operation),
                token_views(command@),
            ));
        }
        Ok(args)
    } else {
        proof {
            assert(arg_views(args@) =~= bind_args(
                required_names(*operation),
                token_views(command@),
            ));
        }
        Ok(args)
    }
}

// ---- the parser itself ----

/// What parsing a line yields, stated over character sequences.
#[verifier::ext_equal]
pub ghost enum ParseOutcome {
    Meta(HandleType, Seq<(Seq<char>, Seq<char>)>),
    EmptyInput,
    Unknown(Seq<char>),
    Missing(HandleType),
}

/// The full parse of one command line.
pub open spec fn parse_spec(m: Seq<char>) -> ParseOutcome {
    if m.len() == 0 {
        ParseOutcome::EmptyInput
    } else {
        let toks = split_sp(m);
        match verb_type(toks[0]) {
            None => ParseOutcome::Unknown(toks[0]),
            Some(t) => if toks.len() - 1 < required_names(t).len() {
                ParseOutcome::Missing(t)
            } else {
                ParseOutcome::Meta(t, bind_args(required_names(t), toks.skip(1)))
            },
        }
    }
}

/// Parses one command line into a verb and its bound arguments.
pub fn parser(message: String) -> (r: Result<ParseMeta, ParseError>)
    ensures
        match r {
            Ok(meta) => parse_spec(message@) == ParseOutcome::Meta(meta.handle_type, meta.args()),
            Err(e) => match e {
                ParseError::EmptyInput => parse_spec(message@) == ParseOutcome::EmptyInput,
                ParseError::UnknownCommand(v) => parse_spec(message@) == ParseOutcome::Unknown(v@),
                ParseError::MissingParameters(t) => parse_spec(message@)
                    == ParseOutcome::Missing(t),
            },
        },
{
    if message.as_str().unicode_len() == 0 {
        return Err(ParseError::EmptyInput);
    }
    let toks = tokenize(message.as_str());
    let verb = &toks[0];
    let t: HandleType;
    if verb_matches(verb.as_str(), "GET") {
        t = HandleType::GET;
    } else if verb_matches(verb.as_str(), "SET") {
        t = HandleType::SET;
    } else if verb_matches(verb.as_str(), "REMOVE") {
        t = HandleType::REMOVE;
    } else if verb_matches(verb.as_str(), "CLEAN") {
        t = HandleType::CLEAN;
    } else if verb_matches(verb.as_str(), "SELECT") {
        t = HandleType::SELECT;
    } else if verb_matches(verb.as_str(), "DICT") {
        t = HandleType::DICT;
    } else {
        return Err(ParseError::UnknownCommand(verb.clone()));
    }
    let mut rest: Vec<String> = Vec::new();
    let mut i: usize = 1;
    while i < toks.len()
        invariant
            1 <= i <= toks@.len(),
            token_views(rest@) == token_views(toks@).subrange(1, i as int),
        decreases toks@.len() - i,
    {
        let ghost old_rest = rest@;
        rest.push(toks[i].clone());
        proof {
            assert(token_views(rest@) =~= token_views(old_rest).push(toks@[i as int]@));
            assert(token_views(rest@) =~= token_views(toks@).subrange(1, i as int + 1));
        }
        i += 1;
    }
    proof {
        assert(token_views(rest@) =~= token_views(toks@).skip(1));
    }
    match parse_sub_argument(&rest, &t) {
        Ok(args) => {
            let meta = ParseMeta { handle_type: t, sub_argument: args };
            Ok(meta)
        },
        Err(e) => Err(e),
    }
}

// ---- executing a parsed command against the database manager ----

/// A command execution failure, reported to the issuing connection.
#[derive(Debug, PartialEq)]
pub enum ExecError {
    MissingArgument,
    NotDict,
    UnknownOperation(String),
}

#[verifier::ext_equal]
pub ghost enum ErrModel {
    MissingArgument,
    NotDict,
    UnknownOperation(Seq<char>),
}

impl ExecError {
    pub open spec fn model(self) -> ErrModel {
        match self {
            ExecError::MissingArgument => ErrModel::MissingArgument,
            ExecError::NotDict => ErrModel::NotDict,
            ExecError::UnknownOperation(s) => ErrModel::UnknownOperation(s@),
        }
    }
}

/// What one command replies with.
#[derive(Debug, PartialEq)]
pub enum CommandResponse {
    Okay,
    Val(DataValue),
    NotFound,
    Error(ExecError),
}

#[verifier::ext_equal]
pub ghost enum RespModel {
    Okay,
    Val(ValueModel),
    NotFound,
    Fail(ErrModel),
}

impl CommandResponse {
    pub open spec fn model(self) -> RespModel {
        match self {
            CommandResponse::Okay => RespModel::Okay,
            CommandResponse::Val(v) => RespModel::Val(v.model()),
            CommandResponse::NotFound => RespModel::NotFound,
            CommandResponse::Error(e) => RespModel::Fail(e.model()),
        }
    }
}

/// Index of the first space in `s`, or -1 if there is none.
pub open spec fn ffind_sp(s: Seq<char>) -> int
    decreases s.len(),
{
    if s.len() == 0 {
        -1
    } else if s[0] == ' ' {
        0
    } else if ffind_sp(s.skip(1)) < 0 {
        -1
    } else {
        1 + ffind_sp(s.skip(1))
    }
}

proof fn lemma_ffind_at(s: Seq<char>, i: int)
    requires
        0 <= i < s.len(),
        s[i] == ' ',
        forall|j: int| 0 <= j < i ==> s[j] != ' ',
    ensures
        ffind_sp(s) == i,
    decreases i,
{
    if i > 0 {
        lemma_ffind_at(s.skip(1), i - 1);
    }
}

proof fn lemma_ffind_none(s: Seq<char>)
    requires
        forall|j: int| 0 <= j < s.len() ==> s[j] != ' ',
    ensures
        ffind_sp(s) == -1,
    decreases s.len(),
{
    if s.len() > 0 {
        lemma_ffind_none(s.skip(1));
    }
}

/// The head of `s` up to its first space, and the remainder after it.
pub open spec fn split_first(s: Seq<char>) -> (Seq<char>, Option<Seq<char>>) {
    let f = ffind_sp(s);
    if f < 0 {
        (s, None)
    } else {
        (s.take(f), Some(s.skip(f + 1)))
    }
}

fn split_first_exec(s: &str) -> (r: (String, Option<String>))
    ensures
        ({
            let (h, t) = split_first(s@);
            &&& r.0@ == h
            &&& match r.1 {
                Some(x) => t == Some(x@),
                None => t is None,
            }
        }),
{
    let n = s.unicode_len();
    let mut i: usize = 0;
    while i < n
        invariant
            0 <= i <= n,
            n == s@.len(),
            forall|j: int| 0 <= j < i ==> s@[j] != ' ',
        decreases n - i,
    {
        if s.get_char(i) == ' ' {
            proof {
                lemma_ffind_at(s@, i as int);
            }
            let head = s.substring_char(0, i);
            let tail = s.substring_char(i + 1, n);
            proof {
                assert(head@ =~= s@.take(i as int));
                assert(tail@ =~= s@.skip(i as int + 1));
            }
            return (head.to_owned(), Some(tail.to_owned()));
        }
        i += 1;
    }
    proof {
        lemma_ffind_none(s@);
    }
    (s.to_owned(), None)
}

/// The outcome one command leaves behind: the groups, the connection's
/// selected group, the registry, and the reply.
#[verifier::ext_equal]
pub ghost struct ExecOutcome {
    pub groups: Map<Seq<char>, DbModel>,
    pub current: Seq<char>,
    pub reg: Map<u128, Seq<char>>,
    pub response: RespModel,
}

/// What executing a parsed command does, per verb: GET reads the current
/// group, SET stores the literal of its (re-joined) value, REMOVE deletes,
/// CLEAN empties the current group, SELECT switches (creating if absent)
/// and updates the registry, and DICT reads or writes one field of a
/// dictionary-typed value.
pub open spec fn execute_spec(
    t: HandleType,
    args: Seq<(Seq<char>, Seq<char>)>,
    groups: Map<Seq<char>, DbModel>,
    current: Seq<char>,
    reg: Map<u128, Seq<char>>,
    connid: u128,
) -> ExecOutcome {
    let missing = ExecOutcome {
        groups,
        current,
        reg,
        response: RespModel::Fail(ErrModel::MissingArgument),
    };
    match t {
        HandleType::GET => match args_lookup(args, "key"@) {
            None => missing,
            Some(k) => match lookup_spec(groups, current, k) {
                Some(v) => ExecOutcome { groups, current, reg, response: RespModel::Val(v) },
                None => ExecOutcome { groups, current, reg, response: RespModel::NotFound },
            },
        },
        HandleType::SET => match (args_lookup(args, "key"@), args_lookup(args, "value"@)) {
            (Some(k), Some(v)) => {
                let full = match args_lookup(args, "other"@) {
                    Some(o) => v + seq![' '] + o,
                    None => v,
                };
                ExecOutcome {
                    groups: set_spec(groups, current, k, literal_model(full)),
                    current,
                    reg,
                    response: RespModel::Okay,
                }
            },
            _ => missing,
        },
        HandleType::REMOVE => match args_lookup(args, "key"@) {
            Some(k) => ExecOutcome {
                groups: remove_spec(groups, current, k),
                current,
                reg,
                response: RespModel::Okay,
            },
            None => missing,
        },
        HandleType::CLEAN => ExecOutcome {
            groups: clear_spec(groups, current),
            current,
            reg,
            response: RespModel::Okay,
        },
        HandleType::SELECT => match args_lookup(args, "database"@) {
            Some(db) => ExecOutcome {
                groups: if groups.contains_key(db) {
                    groups
                } else {
                    groups.insert(db, empty_db())
                },
                current: db,
                reg: reg.insert(connid, db),
                response: RespModel::Okay,
            },
            None => missing,
        },
        HandleType::DICT => match (args_lookup(args, "key"@), args_lookup(args, "operation"@)) {
            (Some(k), Some(op)) => if op == "get"@ {
                match args_lookup(args, "other"@) {
                    Some(field) => match lookup_spec(groups, current, k) {
                        Some(ValueModel::Dict(d)) => if dict_map(d).contains_key(field) {
                            ExecOutcome {
                                groups,
                                current,
                                reg,
                                response: RespModel::Val(dict_map(d)[field]),
                            }
                        } else {
                            ExecOutcome { groups, current, reg, response: RespModel::NotFound }
                        },
                        Some(_) => ExecOutcome {
                            groups,
                            current,
                            reg,
                            response: RespModel::Fail(ErrModel::NotDict),
                        },
                        None => ExecOutcome {
                            groups,
                            current,
                            reg,
                            response: RespModel::NotFound,
                        },
                    },
                    None => missing,
                }
            } else if op == "set"@ {
                match args_lookup(args, "other"@) {
                    Some(rest) => {
                        let (field, val_txt) = split_first(rest);
                        match val_txt {
                            Some(vt) => match lookup_spec(groups, current, k) {
                                Some(ValueModel::Dict(d)) => ExecOutcome {
                                    groups: set_spec(
                                        groups,
                                        current,
                                        k,
                                        ValueModel::Dict(
                                            dict_set_model(d, field, literal_model(vt)),
                                        ),
                                    ),
                                    current,
                                    reg,
                                    response: RespModel::Okay,
                                },
                                Some(_) => ExecOutcome {
                                    groups,
                                    current,
                                    reg,
                                    response: RespModel::Fail(ErrModel::NotDict),
                                },
                                None => ExecOutcome {
                                    groups: set_spec(
                                        groups,
                                        current,
                                        k,
                                        ValueModel::Dict(
                                            dict_set_model(
                                                DictModel::Empty,
                                                field,
                                                literal_model(vt),
                                            ),
                                        ),
                                    ),
                                    current,
                                    reg,
                                    response: RespModel::Okay,
                                },
                            },
                            None => missing,
                        }
                    },
                    None => missing,
                }
            } else {
                ExecOutcome {
                    groups,
                    current,
                    reg,
                    response: RespModel::Fail(ErrModel::UnknownOperation(op)),
                }
            },
            _ => missing,
        },
    }
}

/// Executes one parsed command against the database manager, the
/// connection's selected group and the registry.
pub fn execute(
    manager: &mut DataBaseManager,
    registry: &mut ConnectionRegistry,
    connid: u128,
    current_group: &mut String,
    meta: &ParseMeta,
) -> (r: CommandResponse)
    requires
        old(manager).wf(),
        old(registry).wf(),
    ensures
        final(manager).wf(),
        final(registry).wf(),
        final(manager).default_group == old(manager).default_group,
        ({
            let o = execute_spec(
                meta.handle_type,
                meta.args(),
                old(manager).groups(),
                old(current_group)@,
                old(registry).view_map(),
                connid,
            );
            &&& final(manager).groups() == o.groups
            &&& final(current_group)@ == o.current
            &&& final(registry).view_map() == o.reg
            &&& r.model() == o.response
        }),
{
    match meta.handle_type {
        HandleType::GET => {
            match meta.get_argument("key") {
                None => CommandResponse::Error(ExecError::MissingArgument),
                Some(k) => {
                    match manager.get(current_group.as_str(), k.as_str()) {
                        Some(v) => CommandResponse::Val(v.duplicate()),
                        None => CommandResponse::NotFound,
                    }
                },
            }
        },
        HandleType::SET => {
            let k = match meta.get_argument("key") {
                None => {
                    return CommandResponse::Error(ExecError::MissingArgument);
                },
                Some(k) => k.clone(),
            };
            let v = match meta.get_argument("value") {
                None => {
                    return CommandResponse::Error(ExecError::MissingArgument);
                },
                Some(v) => v.clone(),
            };
            let ghost v_view = v@;
            let mut full = v;
            match meta.get_argument("other") {
                Some(o) => {
                    push_char(&mut full, ' ');
                    full.append(o.as_str());
                    proof {
                        assert(full@ =~= v_view + seq![' '] + o@);
                    }
                },
                None => {},
            }
            let dv = parse_value_type(full);
            manager.set(current_group.as_str(), k.as_str(), dv);
            CommandResponse::Okay
        },
        HandleType::REMOVE => {
            match meta.get_argument("key") {
                None => CommandResponse::Error(ExecError::MissingArgument),
                Some(k) => {
                    manager.remove(current_group.as_str(), k.as_str());
                    CommandResponse::Okay
                },
            }
        },
        HandleType::CLEAN => {
            manager.clear(current_group.as_str());
            CommandResponse::Okay
        },
        HandleType::SELECT => {
            match meta.get_argument("database") {
                None => CommandResponse::Error(ExecError::MissingArgument),
                Some(db) => {
                    let name = db.clone();
                    manager.select_or_create(name.as_str());
                    registry.db_stat_set(connid, name.clone());
                    *current_group = name;
                    CommandResponse::Okay
                },
            }
        },
        HandleType::DICT => {
            let k = match meta.get_argument("key") {
                None => {
                    return CommandResponse::Error(ExecError::MissingArgument);
                },
                Some(k) => k.clone(),
            };
            let op = match meta.get_argument("operation") {
                None => {
                    return CommandResponse::Error(ExecError::MissingArgument);
                },
                Some(op) => op.clone(),
            };
            if crate::value::str_eq(op.as_str(), "get") {
                let field = match meta.get_argument("other") {
                    None => {
                        return CommandResponse::Error(ExecError::MissingArgument);
                    },
                    Some(f) => f.clone(),
                };
                match manager.get(current_group.as_str(), k.as_str()) {
                    None => CommandResponse::NotFound,
                    Some(stored) => match stored {
                        DataValue::Dict(d) => match d.field_get(field.as_str()) {
                            Some(v) => CommandResponse::Val(v.duplicate()),
                            None => CommandResponse::NotFound,
                        },
                        _ => CommandResponse::Error(ExecError::NotDict),
                    },
                }
            } else if crate::value::str_eq(op.as_str(), "set") {
                let rest = match meta.get_argument("other") {
                    None => {
                        return CommandResponse::Error(ExecError::MissingArgument);
                    },
                    Some(o) => o.clone(),
                };
                let (field, val_txt) = split_first_exec(rest.as_str());
                let vt = match val_txt {
                    None => {
                        return CommandResponse::Error(ExecError::MissingArgument);
                    },
                    Some(vt) => vt,
                };
                let base: DictBody = match manager.get(current_group.as_str(), k.as_str()) {
                    None => DictBody::Empty,
                    Some(stored) => match stored {
                        DataValue::Dict(d) => d.duplicate(),
                        _ => {
                            return CommandResponse::Error(ExecError::NotDict);
                        },
                    },
                };
                let newd = base.field_set(field.as_str(), parse_value_type(vt));
                manager.set(current_group.as_str(), k.as_str(), DataValue::Dict(newd));
                CommandResponse::Okay
            } else {
                CommandResponse::Error(ExecError::UnknownOperation(op))
            }
        },
    }
}

/// A successfully parsed command carries a binding for every parameter its
/// verb requires, so executing it never fails for a missing argument.
pub proof fn lemma_parsed_arguments_present(m: Seq<char>, t: HandleType, args: Seq<
    (Seq<char>, Seq<char>),
>)
    requires
        parse_spec(m) == ParseOutcome::Meta(t, args),
    ensures
        forall|i: int|
            0 <= i < required_names(t).len() ==> args_lookup(
                args,
                #[trigger] required_names(t)[i],
            ) is Some,
{
    reveal_strlit("key");
    reveal_strlit("value");
    reveal_strlit("operation");
    let toks = split_sp(m);
    let names = required_names(t);
    assert(args == bind_args(names, toks.skip(1)));
    match t {
        HandleType::CLEAN => {},
        HandleType::GET | HandleType::REMOVE | HandleType::SELECT => {
            assert(names.len() == 1);
            assert(args[0] == (names[0], toks.skip(1)[0]));
            assert(args_lookup(args, names[0]) is Some);
        },
        HandleType::SET | HandleType::DICT => {
            assert(names.len() == 2);
            assert(args[0] == (names[0], toks.skip(1)[0]));
            assert(args[1] == (names[1], toks.skip(1)[1]));
            assert(args_lookup(args, names[0]) is Some);
            assert(names[0].len() != names[1].len());
            assert(args[0].0 != names[1]);
            assert(args.skip(1)[0] == args[1]);
            assert(args_lookup(args.skip(1), names[1]) is Some);
            assert(args_lookup(args, names[1]) is Some);
        },
    }
}

/// Parsing is case-insensitive on the verb token: two lines with the same
/// tokens whose verbs agree up to ASCII case parse identically, for any
/// well-formed verb.
pub proof fn lemma_verb_case_insensitive(m1: Seq<char>, m2: Seq<char>)
    requires
        m1.len() > 0,
        m2.len() > 0,
        split_sp(m1).len() == split_sp(m2).len(),
        eq_ci(split_sp(m1)[0], split_sp(m2)[0]),
        split_sp(m1).skip(1) == split_sp(m2).skip(1),
        verb_type(split_sp(m1)[0]) is Some,
    ensures
        parse_spec(m1) == parse_spec(m2),
{
    let a = split_sp(m1)[0];
    let b = split_sp(m2)[0];
    assert forall|v: Seq<char>| eq_ci(a, v) implies eq_ci(b, v) by {
        assert(forall|i: int| 0 <= i < b.len() ==> upper_cp(b[i]) == upper_cp(a[i]));
    }
    assert forall|v: Seq<char>| eq_ci(b, v) implies eq_ci(a, v) by {
        assert(forall|i: int| 0 <= i < a.len() ==> upper_cp(a[i]) == upper_cp(b[i]));
    }
    assert(verb_type(a) == verb_type(b));
}

} // verus!
