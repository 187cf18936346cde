//! The persistence codec: values and whole groups are encoded into a flat
//! stream of tokens and decoded back.  Decoding the encoding of any value
//! reproduces an equal value, for all four variants and nested dictionaries
//! of arbitrary depth; the serialized byte form of a token stream is a
//! transport concern outside the library.

use vstd::prelude::*;
use crate::value::{DataValue, DictBody, ValueModel, DictModel};
use crate::database::{Database, entry_views};
use crate::kv::unique_keys;

verus! {

/// One unit of the persistence stream.
#[derive(Debug, PartialEq)]
pub enum Token {
    Num(i64),
    Txt(String),
    Flag(bool),
    DictStart,
    DictEnd,
}

/// Model of one token.
#[verifier::ext_equal]
pub ghost enum TokenModel {
    Num(int),
    Txt(Seq<char>),
    Flag(bool),
    DictStart,
    DictEnd,
}

impl Token {
    pub open spec fn model(self) -> TokenModel {
        match self {
            Token::Num(n) => TokenModel::Num(n as int),
            Token::Txt(s) => TokenModel::Txt(s@),
            Token::Flag(b) => TokenModel::Flag(b),
            Token::DictStart => TokenModel::DictStart,
            Token::DictEnd => TokenModel::DictEnd,
        }
    }
}

pub open spec fn token_models(s: Seq<Token>) -> Seq<TokenModel> {
    s.map_values(|t: Token| t.model())
}

// ---- the encoding, as a specification ----

pub open spec fn enc_val(v: ValueModel) -> Seq<TokenModel>
    decreases v,
{
    match v {
        ValueModel::Number(n) => seq![TokenModel::Num(n)],
        ValueModel::Text(s) => seq![TokenModel::Txt(s)],
        ValueModel::Boolean(b) => seq![TokenModel::Flag(b)],
        ValueModel::Dict(d) => seq![TokenModel::DictStart] + enc_entries(d) + seq![
            TokenModel::DictEnd,
        ],
    }
}

pub open spec fn enc_entries(d: DictModel) -> Seq<TokenModel>
    decreases d,
{
    match d {
        DictModel::Empty => Seq::empty(),
        DictModel::Entry(k, v, rest) => seq![TokenModel::Txt(k)] + enc_val(*v) + enc_entries(
            *rest,
        ),
    }
}

// ---- the decoding, as a specification ----

pub open spec fn dec_val(s: Seq<TokenModel>) -> Option<(ValueModel, int)>
    decreases s.len(), 1int,
{
    if s.len() == 0 {
        None
    } else {
        match s[0] {
            TokenModel::Num(n) => Some((ValueModel::Number(n), 1)),
            TokenModel::Txt(t) => Some((ValueModel::Text(t), 1)),
            TokenModel::Flag(b) => Some((ValueModel::Boolean(b), 1)),
            TokenModel::DictStart => match dec_entries(s.skip(1)) {
                Some(p) => Some((ValueModel::Dict(p.0), 1 + p.1)),
                None => None,
            },
            TokenModel::DictEnd => None,
        }
    }
}

pub open spec fn dec_entries(s: Seq<TokenModel>) -> Option<(DictModel, int)>
    decreases s.len(), 0int,
{
    if s.len() == 0 {
        None
    } else {
        match s[0] {
            TokenModel::DictEnd => Some((DictModel::Empty, 1)),
            TokenModel::Txt(k) => match dec_val(s.skip(1)) {
                Some(p) => {
                    let n1a = if p.1 >= 1 {
                        p.1
                    } else {
                        1
                    };
                    let n1 = if n1a <= s.len() - 1 {
                        n1a
                    } else {
                        s.len() - 1
                    };
                    match dec_entries(s.skip(1 + n1)) {
                        Some(q) => Some(
                            (DictModel::Entry(k, Box::new(p.0), Box::new(q.0)), 1 + n1 + q.1),
                        ),
                        None => None,
                    }
                },
                None => None,
            },
            _ => None,
        }
    }
}

/// Every encoding takes at least one token.
pub proof fn lemma_enc_val_len(v: ValueModel)
    ensures
        enc_val(v).len() >= 1,
{
    match v {
        ValueModel::Number(_) => {},
        ValueModel::Text(_) => {},
        ValueModel::Boolean(_) => {},
        ValueModel::Dict(_) => {},
    }
}

// ---- the round trip ----

/// Decoding picks the encoded value back off the front of any stream.
pub proof fn lemma_round_trip_val(v: ValueModel, rest: Seq<TokenModel>)
    ensures
        dec_val(enc_val(v) + rest) == Some((v, enc_val(v).len() as int)),
    decreases v,
{
    let s = enc_val(v) + rest;
    match v {
        ValueModel::Number(n) => {
            assert(s[0] == TokenModel::Num(n));
        },
        ValueModel::Text(t) => {
            assert(s[0] == TokenModel::Txt(t));
        },
        ValueModel::Boolean(b) => {
            assert(s[0] == TokenModel::Flag(b));
        },
        ValueModel::Dict(d) => {
            assert(s[0] == TokenModel::DictStart);
            assert(s.skip(1) =~= enc_entries(d) + (seq![TokenModel::DictEnd] + rest));
            lemma_round_trip_entries(d, rest);
            assert(enc_entries(d) + seq![TokenModel::DictEnd] + rest =~= enc_entries(d) + (seq![
                TokenModel::DictEnd,
            ] + rest));
            assert(dec_entries(s.skip(1)) == Some((d, enc_entries(d).len() as int + 1)));
        },
    }
}

/// Decoding a dictionary body stops at its end marker and reproduces it.
pub proof fn lemma_round_trip_entries(d: DictModel, rest: Seq<TokenModel>)
    ensures
        dec_entries(enc_entries(d) + seq![TokenModel::DictEnd] + rest) == Some(
            (d, enc_entries(d).len() as int + 1),
        ),
    decreases d,
{
    let s = enc_entries(d) + seq![TokenModel::DictEnd] + rest;
    match d {
        DictModel::Empty => {
            assert(s[0] == TokenModel::DictEnd);
        },
        DictModel::Entry(k, v, tail) => {
            assert(s[0] == TokenModel::Txt(k));
            let tail_toks = enc_entries(*tail) + seq![TokenModel::DictEnd] + rest;
            assert(s.skip(1) =~= enc_val(*v) + tail_toks);
            lemma_round_trip_val(*v, tail_toks);
            lemma_enc_val_len(*v);
            let nv = enc_val(*v).len() as int;
            assert(dec_val(s.skip(1)) == Some((*v, nv)));
            assert(s.skip(1 + nv) =~= tail_toks);
            lemma_round_trip_entries(*tail, rest);
            assert(dec_entries(s.skip(1 + nv)) == Some((*tail, enc_entries(*tail).len() as int + 1)));
            assert(DictModel::Entry(k, Box::new(*v), Box::new(*tail)) == d);
            assert(enc_entries(d).len() == 1 + nv + enc_entries(*tail).len());
        },
    }
}

/// Round trip: decoding the encoding of any value yields that value, whole.
pub proof fn lemma_value_round_trip(v: ValueModel)
    ensures
        dec_val(enc_val(v)) == Some((v, enc_val(v).len() as int)),
{
    lemma_round_trip_val(v, Seq::empty());
    assert(enc_val(v) + Seq::<TokenModel>::empty() =~= enc_val(v));
}

// ---- executable encoding ----

fn encode_value_into(v: &DataValue, out: &mut Vec<Token>)
    ensures
        token_models(final(out)@) == token_models(old(out)@) + enc_val(v.model()),
    decreases v,
{
    match v {
        DataValue::Number(n) => {
            let ghost o = out@;
            out.push(Token::Num(*n));
            proof {
                assert(token_models(out@) =~= token_models(o) + enc_val(v.model()));
            }
        },
        DataValue::String(s) => {
            let ghost o = out@;
            out.push(Token::Txt(s.clone()));
            proof {
                assert(token_models(out@) =~= token_models(o) + enc_val(v.model()));
            }
        },
        DataValue::Boolean(b) => {
            let ghost o = out@;
            out.push(Token::Flag(*b));
            proof {
                assert(token_models(out@) =~= token_models(o) + enc_val(v.model()));
            }
        },
        DataValue::Dict(d) => {
            let ghost o = out@;
            out.push(Token::DictStart);
            proof {
                assert(token_models(out@) =~= token_models(o) + seq![TokenModel::DictStart]);
            }
            encode_entries_into(d, out);
            let ghost o2 = out@;
            out.push(Token::DictEnd);
            proof {
                assert(token_models(out@) =~= token_models(o2) + seq![TokenModel::DictEnd]);
                assert(token_models(out@) =~= token_models(o) + enc_val(v.model()));
            }
        },
    }
}

fn encode_entries_into(d: &DictBody, out: &mut Vec<Token>)
    ensures
        token_models(final(out)@) == token_models(old(out)@) + enc_entries(d.model()),
    decreases d,
{
    match d {
        DictBody::Empty => {
            proof {
                assert(token_models(out@) =~= token_models(out@) + enc_entries(d.model()));
            }
        },
        DictBody::Entry(k, v, rest) => {
            let ghost o = out@;
            out.push(Token::Txt(k.clone()));
            proof {
                assert(token_models(out@) =~= token_models(o) + seq![TokenModel::Txt(k@)]);
            }
            encode_value_into(v, out);
            encode_entries_into(rest, out);
            proof {
                assert(token_models(out@) =~= token_models(o) + enc_entries(d.model()));
            }
        },
    }
}

/// Encodes one value into a fresh token stream.
pub fn encode_value(v: &DataValue) -> (r: Vec<Token>)
    ensures
        token_models(r@) == enc_val(v.model()),
{
    let mut out: Vec<Token> = Vec::new();
    proof {
        assert(token_models(out@) =~= Seq::<TokenModel>::empty());
    }
    encode_value_into(v, &mut out);
    proof {
        assert(Seq::<TokenModel>::empty() + enc_val(v.model()) =~= enc_val(v.model()));
    }
    out
}

// ---- executable decoding ----

fn decode_at(tokens: &Vec<Token>, i: usize) -> (r: Option<(DataValue, usize)>)
    requires
        i <= tokens@.len(),
    ensures
        match r {
            Some(p) => dec_val(token_models(tokens@).skip(i as int)) == Some(
                (p.0.model(), p.1 - i),
            ) && i < p.1 <= tokens@.len(),
            None => dec_val(token_models(tokens@).skip(i as int)) is None,
        },
    decreases tokens@.len() - i, 1int,
{
    let ghost s = token_models(tokens@).skip(i as int);
    if i >= tokens.len() {
        return None;
    }
    proof {
        assert(s[0] == tokens@[i as int].model());
    }
    match &tokens[i] {
        Token::Num(n) => Some((DataValue::Number(*n), i + 1)),
        Token::Txt(t) => Some((DataValue::String(t.clone()), i + 1)),
        Token::Flag(b) => Some((DataValue::Boolean(*b), i + 1)),
        Token::DictStart => {
            proof {
                assert(s.skip(1) =~= token_models(tokens@).skip(i as int + 1));
            }
            match decode_entries_at(tokens, i + 1) {
                Some((d, j)) => Some((DataValue::Dict(d), j)),
                None => None,
            }
        },
        Token::DictEnd => None,
    }
}

fn decode_entries_at(tokens: &Vec<Token>, i: usize) -> (r: Option<(DictBody, usize)>)
    requires
        i <= tokens@.len(),
    ensures
        match r {
            Some(p) => dec_entries(token_models(tokens@).skip(i as int)) == Some(
                (p.0.model(), p.1 - i),
            ) && i < p.1 <= tokens@.len(),
            None => dec_entries(token_models(tokens@).skip(i as int)) is None,
        },
    decreases tokens@.len() - i, 0int,
{
    let ghost s = token_models(tokens@).skip(i as int);
    if i >= tokens.len() {
        return None;
    }
    proof {
        assert(s[0] == tokens@[i as int].model());
    }
    match &tokens[i] {
        Token::DictEnd => Some((DictBody::Empty, i + 1)),
        Token::Txt(k) => {
            proof {
                assert(s.skip(1) =~= token_models(tokens@).skip(i as int + 1));
            }
            match decode_at(tokens, i + 1) {
                Some((v, j)) => {
                    proof {
                        assert(s.skip(1 + (j - i - 1)) =~= token_models(tokens@).skip(j as int));
                    }
                    match decode_entries_at(tokens, j) {
                        Some((rest, m)) => Some(
                            (DictBody::Entry(k.clone(), Box::new(v), Box::new(rest)), m),
                        ),
                        None => None,
                    }
                },
                None => None,
            }
        },
        _ => None,
    }
}

/// Decodes a whole token stream as one value; the stream must hold exactly
/// one encoded value and nothing after it.
pub fn decode_value(tokens: &Vec<Token>) -> (r: Option<DataValue>)
    ensures
        ({
            let d = dec_val(token_models(tokens@));
            match r {
                Some(dv) => d == Some((dv.model(), tokens@.len() as int)),
                None => match d {
                    Some(p) => p.1 != tokens@.len(),
                    None => true,
                },
            }
        }),
{
    proof {
        assert(token_models(tokens@).skip(0) =~= token_models(tokens@));
    }
    match decode_at(tokens, 0) {
        Some((v, n)) => {
            if n == tokens.len() {
                Some(v)
            } else {
                None
            }
        },
        None => None,
    }
}

// ---- whole-group payloads ----

/// The payload of a group: each entry's key and value in order, closed by
/// an end marker.
pub open spec fn enc_db(s: Seq<(Seq<char>, ValueModel)>) -> Seq<TokenModel>
    decreases s.len(),
{
    if s.len() == 0 {
        seq![TokenModel::DictEnd]
    } else {
        seq![TokenModel::Txt(s[0].0)] + enc_val(s[0].1) + enc_db(s.skip(1))
    }
}

pub open spec fn dec_db(s: Seq<TokenModel>) -> Option<(Seq<(Seq<char>, ValueModel)>, int)>
    decreases s.len(),
{
    if s.len() == 0 {
        None
    } else {
        match s[0] {
            TokenModel::DictEnd => Some((Seq::empty(), 1)),
            TokenModel::Txt(k) => match dec_val(s.skip(1)) {
                Some(p) => {
                    let n1a = if p.1 >= 1 {
                        p.1
                    } else {
                        1
                    };
                    let n1 = if n1a <= s.len() - 1 {
                        n1a
                    } else {
                        s.len() - 1
                    };
                    match dec_db(s.skip(1 + n1)) {
                        Some(q) => Some((seq![(k, p.0)] + q.0, 1 + n1 + q.1)),
                        None => None,
                    }
                },
                None => None,
            },
            _ => None,
        }
    }
}

/// Round trip for a group payload: decoding the encoding of any entry list
/// reproduces it, whole.
pub proof fn lemma_database_round_trip(s: Seq<(Seq<char>, ValueModel)>)
    ensures
        dec_db(enc_db(s)) == Some((s, enc_db(s).len() as int)),
{
    lemma_round_trip_db(s, Seq::empty());
    assert(enc_db(s) + Seq::<TokenModel>::empty() =~= enc_db(s));
}

proof fn lemma_round_trip_db(s: Seq<(Seq<char>, ValueModel)>, rest: Seq<TokenModel>)
    ensures
        dec_db(enc_db(s) + rest) == Some((s, enc_db(s).len() as int)),
    decreases s.len(),
{
    let t = enc_db(s) + rest;
    if s.len() == 0 {
        assert(t[0] == TokenModel::DictEnd);
        assert(s =~= Seq::<(Seq<char>, ValueModel)>::empty());
    } else {
        assert(t[0] == TokenModel::Txt(s[0].0));
        let tail_toks = enc_db(s.skip(1)) + rest;
        assert(t.skip(1) =~= enc_val(s[0].1) + tail_toks);
        lemma_round_trip_val(s[0].1, tail_toks);
        lemma_enc_val_len(s[0].1);
        let nv = enc_val(s[0].1).len() as int;
        assert(t.skip(1 + nv) =~= tail_toks);
        lemma_round_trip_db(s.skip(1), rest);
        assert(seq![(s[0].0, s[0].1)] + s.skip(1) =~= s);
        assert(enc_db(s).len() == 1 + nv + enc_db(s.skip(1)).len());
    }
}

/// Encodes a whole group for persistence.
pub fn encode_database(db: &Database) -> (r: Vec<Token>)
    ensures
        token_models(r@) == enc_db(entry_views(db.data@)),
{
    let mut out: Vec<Token> = Vec::new();
    let mut i: usize = 0;
    let n = db.data.len();
    let ghost views = entry_views(db.data@);
    proof {
        assert(views.skip(0) =~= views);
        assert(token_models(out@) + enc_db(views.skip(0)) =~= enc_db(views));
    }
    while i < n
        invariant
            0 <= i <= n,
            n == db.data@.len(),
            views == entry_views(db.data@),
            token_models(out@) + enc_db(views.skip(i as int)) == enc_db(views),
        decreases n - i,
    {
        let ghost o = out@;
        out.push(Token::Txt(db.data[i].0.clone()));
        proof {
            assert(token_models(out@) =~= token_models(o) + seq![
                TokenModel::Txt(views[i as int].0),
            ]);
        }
        encode_value_into(&db.data[i].1, &mut out);
        proof {
            let mid = views.skip(i as int);
            assert(mid[0] == views[i as int]);
            assert(mid.skip(1) =~= views.skip(i as int + 1));
            assert(enc_db(mid) == seq![TokenModel::Txt(views[i as int].0)] + enc_val(
                views[i as int].1,
            ) + enc_db(views.skip(i as int + 1)));
            assert(token_models(out@) + enc_db(views.skip(i as int + 1)) =~= enc_db(views));
        }
        i += 1;
    }
    let ghost o2 = out@;
    out.push(Token::DictEnd);
    proof {
        assert(views.skip(n as int) =~= Seq::<(Seq<char>, ValueModel)>::empty());
        assert(token_models(out@) =~= token_models(o2) + seq![TokenModel::DictEnd]);
        assert(token_models(out@) =~= enc_db(views));
    }
    out
}

impl crate::database::DataBaseManager {
    /// The persistence payload of one group: a token stream that decodes
    /// back to exactly the group's contents.  `None` if no such group
    /// exists.
    pub fn persist_payload(&self, group: &str) -> (r: Option<Vec<Token>>)
        requires
            self.wf(),
        ensures
            (r is Some) == self.groups().contains_key(group@),
            match r {
                Some(toks) => match dec_db(token_models(toks@)) {
                    Some(p) => p.1 == toks@.len() && unique_keys(p.0) && crate::kv::assoc_map(
                        p.0,
                    ) == self.groups()[group@].content,
                    None => false,
                },
                None => true,
            },
    {
        let ghost gv = crate::database::group_views(self.db_list@);
        proof {
            crate::kv::lemma_assoc_contains(gv, group@);
        }
        let mut i: usize = 0;
        let n = self.db_list.len();
        while i < n
            invariant
                self.wf(),
                0 <= i <= n,
                n == self.db_list@.len(),
                gv == crate::database::group_views(self.db_list@),
                forall|j: int| 0 <= j < i ==> (#[trigger] self.db_list@[j]).0@ != group@,
            decreases n - i,
        {
            if crate::value::str_eq(self.db_list[i].0.as_str(), group) {
                let db = &self.db_list[i].1;
                let toks = encode_database(db);
                proof {
                    crate::kv::lemma_assoc_index(gv, i as int);
                    lemma_database_round_trip(entry_views(db.data@));
                }
                return Some(toks);
            }
            i += 1;
        }
        proof {
            assert(forall|j: int| 0 <= j < gv.len() ==> (#[trigger] gv[j]).0 != group@);
        }
        None
    }
}

fn has_key(data: &Vec<(String, DataValue)>, key: &str) -> (r: bool)
    ensures
        r == exists|j: int| 0 <= j < data@.len() && (#[trigger] data@[j]).0@ == key@,
{
    let mut i: usize = 0;
    let n = data.len();
    while i < n
        invariant
            0 <= i <= n,
            n == data@.len(),
            forall|j: int| 0 <= j < i ==> (#[trigger] data@[j]).0@ != key@,
        decreases n - i,
    {
        if crate::value::str_eq(data[i].0.as_str(), key) {
            return true;
        }
        i += 1;
    }
    false
}

/// Rebuilds a group from a persisted payload.  The stream must hold exactly
/// one payload, and its keys must be unique; the group comes back clean.
pub fn decode_database(tokens: &Vec<Token>) -> (r: Option<Database>)
    ensures
        match r {
            Some(db) => db.wf() && !db.dirty && db.last_save == 0 && dec_db(
                token_models(tokens@),
            ) == Some((entry_views(db.data@), tokens@.len() as int)),
            None => match dec_db(token_models(tokens@)) {
                Some(p) => p.1 != tokens@.len() || !unique_keys(p.0),
                None => true,
            },
        },
{
    let ghost tm = token_models(tokens@);
    let mut data: Vec<(String, DataValue)> = Vec::new();
    let mut i: usize = 0;
    proof {
        assert(tm.skip(0) =~= tm);
        assert(entry_views(data@) =~= Seq::<(Seq<char>, ValueModel)>::empty());
    }
    loop
        invariant
            0 <= i <= tokens@.len(),
            tm == token_models(tokens@),
            unique_keys(entry_views(data@)),
            match dec_db(tm.skip(i as int)) {
                Some(p) => dec_db(tm) == Some((entry_views(data@) + p.0, i + p.1)),
                None => dec_db(tm) is None,
            },
        decreases tokens@.len() - i,
    {
        if i >= tokens.len() {
            return None;
        }
        proof {
            assert(tm.skip(i as int)[0] == tokens@[i as int].model());
        }
        match &tokens[i] {
            Token::DictEnd => {
                proof {
                    assert(dec_db(tm.skip(i as int)) == Some(
                        (Seq::<(Seq<char>, ValueModel)>::empty(), 1int),
                    ));
                    assert(entry_views(data@) + Seq::<(Seq<char>, ValueModel)>::empty()
                        =~= entry_views(data@));
                }
                if i + 1 == tokens.len() {
                    let db = Database { data, dirty: false, last_save: 0 };
                    return Some(db);
                } else {
                    return None;
                }
            },
            Token::Txt(k) => {
                proof {
                    assert(tm.skip(i as int).skip(1) =~= tm.skip(i as int + 1));
                }
                match decode_at(tokens, i + 1) {
                    Some((v, j)) => {
                        proof {
                            assert(tm.skip(i as int).skip(1 + (j - i - 1)) =~= tm.skip(j as int));
                        }
                        if has_key(&data, k.as_str()) {
                            // A duplicated key: the payload does not denote a
                            // well-formed group.
                            proof {
                                let ghost dup = choose|a: int|
                                    0 <= a < data@.len() && (#[trigger] data@[a]).0@ == k@;
                                match dec_db(tm.skip(j as int)) {
                                    Some(q) => {
                                        let whole = entry_views(data@) + (seq![(k@, v.model())]
                                            + q.0);
                                        assert(whole[dup].0 == k@);
                                        assert(whole[entry_views(data@).len() as int].0 == k@);
                                        assert(!unique_keys(whole));
                                        assert(dec_db(tm.skip(i as int)) == Some(
                                            (seq![(k@, v.model())] + q.0, (j - i) + q.1),
                                        ));
                                        assert(entry_views(data@) + (seq![(k@, v.model())] + q.0)
                                            =~= (entry_views(data@) + seq![(k@, v.model())])
                                            + q.0);
                                    },
                                    None => {},
                                }
                            }
                            return None;
                        }
                        let ghost d0 = data@;
                        data.push((k.clone(), v));
                        proof {
                            assert(entry_views(data@) =~= entry_views(d0).push((k@, v.model())));
                            crate::kv::lemma_unique_push(entry_views(d0), k@, v.model());
                            match dec_db(tm.skip(j as int)) {
                                Some(q) => {
                                    assert(dec_db(tm.skip(i as int)) == Some(
                                        (seq![(k@, v.model())] + q.0, (j - i) + q.1),
                                    ));
                                    assert(entry_views(d0) + (seq![(k@, v.model())] + q.0)
                                        =~= entry_views(data@) + q.0);
                                },
                                None => {
                                    assert(dec_db(tm.skip(i as int)) is None);
                                },
                            }
                        }
                        i = j;
                    },
                    None => {
                        return None;
                    },
                }
            },
            _ => {
                return None;
            },
        }
    }
}

} // verus!
