//! The value model: the tagged union a database stores, its mathematical
//! model, dictionary field operations, and the inline literal grammar
//! (a leading `:` marks a typed literal; anything else is a plain string).

use vstd::prelude::*;

verus! {

/// Mathematical model of a stored value.
#[verifier::ext_equal]
pub ghost enum ValueModel {
    Number(int),
    Text(Seq<char>),
    Boolean(bool),
    Dict(DictModel),
}

/// Mathematical model of a dictionary body: an ordered association list.
#[verifier::ext_equal]
pub ghost enum DictModel {
    Empty,
    Entry(Seq<char>, Box<ValueModel>, Box<DictModel>),
}

/// A stored value: the tag never changes after construction.
#[derive(Debug, PartialEq)]
pub enum DataValue {
    Number(i64),
    String(String),
    Boolean(bool),
    Dict(DictBody),
}

/// Dictionary contents, kept as an ordered association list; an earlier
/// entry shadows a later one with the same key.
#[derive(Debug, PartialEq)]
pub enum DictBody {
    Empty,
    Entry(String, Box<DataValue>, Box<DictBody>),
}

impl DataValue {
    pub open spec fn model(self) -> ValueModel
        decreases self,
    {
        match self {
            DataValue::Number(n) => ValueModel::Number(n as int),
            DataValue::String(s) => ValueModel::Text(s@),
            DataValue::Boolean(b) => ValueModel::Boolean(b),
            DataValue::Dict(d) => ValueModel::Dict(d.model()),
        }
    }
}

impl DictBody {
    pub open spec fn model(self) -> DictModel
        decreases self,
    {
        match self {
            DictBody::Empty => DictModel::Empty,
            DictBody::Entry(k, v, rest) => DictModel::Entry(
                k@,
                Box::new(v.model()),
                Box::new(rest.model()),
            ),
        }
    }
}

/// The mapping a dictionary body denotes: the front entry wins on a
/// duplicated key.
pub open spec fn dict_map(d: DictModel) -> Map<Seq<char>, ValueModel>
    decreases d,
{
    match d {
        DictModel::Empty => Map::empty(),
        DictModel::Entry(k, v, rest) => dict_map(*rest).insert(k, *v),
    }
}

/// Setting a field, structurally: the first entry with the name is
/// replaced, or a new entry is appended at the end.
pub open spec fn dict_set_model(d: DictModel, name: Seq<char>, v: ValueModel) -> DictModel
    decreases d,
{
    match d {
        DictModel::Empty => DictModel::Entry(name, Box::new(v), Box::new(DictModel::Empty)),
        DictModel::Entry(k, v2, rest) => if k == name {
            DictModel::Entry(k, Box::new(v), rest)
        } else {
            DictModel::Entry(k, v2, Box::new(dict_set_model(*rest, name, v)))
        },
    }
}

/// Character-for-character string comparison.
pub fn str_eq(a: &str, b: &str) -> (r: bool)
    ensures
        r == (a@ == b@),
{
    let na = a.unicode_len();
    let nb = b.unicode_len();
    if na != nb {
        return false;
    }
    let mut i: usize = 0;
    while i < na
        invariant
            0 <= i <= na,
            na == a@.len(),
            nb == b@.len(),
            na == nb,
            forall|j: int| 0 <= j < i ==> a@[j] == b@[j],
        decreases na - i,
    {
        if a.get_char(i) != b.get_char(i) {
            return false;
        }
        i += 1;
    }
    proof {
        assert(a@ =~= b@);
    }
    true
}

impl DictBody {
    /// Looks a field up by name.
    pub fn field_get<'a>(&'a self, name: &str) -> (r: Option<&'a DataValue>)
        ensures
            match r {
                Some(v) => dict_map(self.model()).contains_key(name@)
                    && v.model() == dict_map(self.model())[name@],
                None => !dict_map(self.model()).contains_key(name@),
            },
        decreases self,
    {
        match self {
            DictBody::Empty => None,
            DictBody::Entry(k, v, rest) => {
                if str_eq(k.as_str(), name) {
                    Some(v)
                } else {
                    rest.field_get(name)
                }
            },
        }
    }

    /// Sets a field, replacing the first entry with the same name or
    /// appending a new one.
    pub fn field_set(self, name: &str, value: DataValue) -> (r: DictBody)
        ensures
            r.model() == dict_set_model(self.model(), name@, value.model()),
            dict_map(r.model()) == dict_map(self.model()).insert(name@, value.model()),
        decreases self,
    {
        match self {
            DictBody::Empty => {
                let r = DictBody::Entry(
                    name.to_owned(),
                    Box::new(value),
                    Box::new(DictBody::Empty),
                );
                proof {
                    assert(dict_map(r.model()) =~= dict_map(
                        DictModel::Empty,
                    ).insert(name@, value.model()));
                }
                r
            },
            DictBody::Entry(k, v, rest) => {
                if str_eq(k.as_str(), name) {
                    let r = DictBody::Entry(k, Box::new(value), rest);
                    proof {
                        assert(dict_map(r.model()) =~= dict_map(
                            DictModel::Entry(k@, Box::new(v.model()), Box::new(rest.model())),
                        ).insert(name@, value.model()));
                    }
                    r
                } else {
                    let tail = (*rest).field_set(name, value);
                    let r = DictBody::Entry(k, v, Box::new(tail));
                    proof {
                        assert(dict_map(r.model()) =~= dict_map(
                            DictModel::Entry(k@, Box::new(v.model()), Box::new(rest.model())),
                        ).insert(name@, value.model()));
                    }
                    r
                }
            },
        }
    }

    /// Deep copy with the same model.
    pub fn duplicate(&self) -> (r: DictBody)
        ensures
            r.model() == self.model(),
        decreases self,
    {
        match self {
            DictBody::Empty => DictBody::Empty,
            DictBody::Entry(k, v, rest) => DictBody::Entry(
                k.clone(),
                Box::new(v.duplicate()),
                Box::new(rest.duplicate()),
            ),
        }
    }
}

impl DataValue {
    /// Deep copy with the same model.
    pub fn duplicate(&self) -> (r: DataValue)
        ensures
            r.model() == self.model(),
        decreases self,
    {
        match self {
            DataValue::Number(n) => DataValue::Number(*n),
            DataValue::String(s) => DataValue::String(s.clone()),
            DataValue::Boolean(b) => DataValue::Boolean(*b),
            DataValue::Dict(d) => DataValue::Dict(d.duplicate()),
        }
    }
}

// ---- the inline literal grammar ----

pub open spec fn is_digit(c: char) -> bool {
    48 <= c as u32 <= 57
}

pub open spec fn digit_val(c: char) -> int {
    c as u32 - 48
}

pub open spec fn all_digits(s: Seq<char>) -> bool {
    forall|i: int| 0 <= i < s.len() ==> is_digit(#[trigger] s[i])
}

/// Value of an unsigned digit string.
pub open spec fn digits_val(s: Seq<char>) -> int
    decreases s.len(),
{
    if s.len() == 0 {
        0
    } else {
        digits_val(s.drop_last()) * 10 + digit_val(s.last())
    }
}

/// The digits of an optionally signed token.
pub open spec fn int_digits(s: Seq<char>) -> Seq<char> {
    if s.len() > 0 && (s[0] == '-' || s[0] == '+') {
        s.skip(1)
    } else {
        s
    }
}

/// Signed value of an integer token.
pub open spec fn int_literal_val(s: Seq<char>) -> int {
    if s.len() > 0 && s[0] == '-' {
        -digits_val(int_digits(s))
    } else {
        digits_val(int_digits(s))
    }
}

/// Whether a token is a signed integer that fits the stored number type.
pub open spec fn is_int_literal(s: Seq<char>) -> bool {
    &&& int_digits(s).len() > 0
    &&& all_digits(int_digits(s))
    &&& i64::MIN <= int_literal_val(s) <= i64::MAX
}

/// The value a command argument token denotes: a leading colon marks a
/// typed literal (number, then boolean, then empty dictionary); a malformed
/// typed literal degrades to the plain text of the whole token.
pub open spec fn literal_model(s: Seq<char>) -> ValueModel {
    if s.len() > 0 && s[0] == ':' {
        let rest = s.skip(1);
        if is_int_literal(rest) {
            ValueModel::Number(int_literal_val(rest))
        } else if rest == seq!['t', 'r', 'u', 'e'] {
            ValueModel::Boolean(true)
        } else if rest == seq!['f', 'a', 'l', 's', 'e'] {
            ValueModel::Boolean(false)
        } else if rest == seq!['{', '}'] {
            ValueModel::Dict(DictModel::Empty)
        } else {
            ValueModel::Text(s)
        }
    } else {
        ValueModel::Text(s)
    }
}

proof fn lemma_digits_val_bounds(s: Seq<char>)
    requires
        all_digits(s),
    ensures
        digits_val(s) >= 0,
    decreases s.len(),
{
    if s.len() > 0 {
        assert(all_digits(s.drop_last())) by {
            assert(forall|i: int|
                0 <= i < s.len() - 1 ==> is_digit(#[trigger] s.drop_last()[i]));
        }
        lemma_digits_val_bounds(s.drop_last());
    }
}

/// A digit string is worth at least any of its prefixes.
proof fn lemma_digits_val_prefix(s: Seq<char>, i: int)
    requires
        all_digits(s),
        0 <= i <= s.len(),
    ensures
        digits_val(s.subrange(0, i)) <= digits_val(s),
    decreases s.len() - i,
{
    if i == s.len() {
        assert(s.subrange(0, i) =~= s);
    } else {
        lemma_digits_val_prefix(s, i + 1);
        let p = s.subrange(0, i);
        let q = s.subrange(0, i + 1);
        assert(q.drop_last() =~= p);
        assert(all_digits(p)) by {
            assert(forall|j: int| 0 <= j < i ==> is_digit(#[trigger] p[j]));
        }
        lemma_digits_val_bounds(p);
        assert(digits_val(q) == digits_val(p) * 10 + digit_val(q.last()));
        assert(digits_val(p) * 10 >= digits_val(p)) by {
            assert(digits_val(p) >= 0);
        }
    }
}

/// Parses a whole token as a signed integer, or reports that it is none.
pub fn parse_i64(s: &str) -> (r: Option<i64>)
    ensures
        (r is Some) == is_int_literal(s@),
        r matches Some(v) ==> v as int == int_literal_val(s@),
{
    let n = s.unicode_len();
    if n == 0 {
        return None;
    }
    let c0 = s.get_char(0);
    let neg = c0 == '-';
    let has_sign = neg || c0 == '+';
    let start: usize = if has_sign {
        1
    } else {
        0
    };
    proof {
        assert(int_digits(s@) =~= s@.skip(start as int));
    }
    if start == n {
        return None;
    }
    let limit: u64 = if neg {
        9223372036854775808
    } else {
        9223372036854775807
    };
    let mut acc: u64 = 0;
    let mut i: usize = start;
    while i < n
        invariant
            start <= i <= n,
            n == s@.len(),
            start < n,
            start == if has_sign { 1int } else { 0int },
            int_digits(s@) == s@.skip(start as int),
            neg ==> s@[0] == '-',
            !neg && has_sign ==> s@[0] == '+',
            !has_sign ==> !(s@[0] == '-' || s@[0] == '+'),
            limit == if neg { 9223372036854775808u64 } else { 9223372036854775807u64 },
            all_digits(s@.subrange(start as int, i as int)),
            acc as int == digits_val(s@.subrange(start as int, i as int)),
            acc <= limit,
        decreases n - i,
    {
        let c = s.get_char(i);
        let u = c as u32;
        if u < 48 || u > 57 {
            proof {
                assert(!is_digit(int_digits(s@)[i - start]));
            }
            return None;
        }
        let d = (u - 48) as u64;
        let ghost pref = s@.subrange(start as int, i as int);
        let ghost pref1 = s@.subrange(start as int, i as int + 1);
        proof {
            assert(pref1.drop_last() =~= pref);
            assert(pref1.last() == s@[i as int]);
            assert(digits_val(pref1) == acc * 10 + d);
            assert(all_digits(pref1));
        }
        if acc > (limit - d) / 10 {
            // The digits already read exceed the representable range, and
            // further digits can only increase the magnitude.
            proof {
                let l = limit as int;
                assert(acc * 10 + d > l) by {
                    assert(acc as int >= (l - d) / 10 + 1);
                    assert(((l - d as int) / 10 + 1) * 10 > l - d) by (nonlinear_arith)
                        requires 0 <= d <= 9, l >= 9,
                    ;
                    assert(acc * 10 >= ((l - d as int) / 10 + 1) * 10) by (nonlinear_arith)
                        requires acc as int >= (l - d as int) / 10 + 1,
                    ;
                }
                let ds = int_digits(s@);
                assert(pref1 =~= ds.subrange(0, i - start + 1));
                if all_digits(ds) {
                    lemma_digits_val_prefix(ds, i - start + 1);
                    assert(digits_val(ds) > l);
                    if neg {
                        assert(int_literal_val(s@) == -digits_val(ds));
                        assert(!is_int_literal(s@));
                    } else {
                        assert(int_literal_val(s@) == digits_val(ds));
                        assert(!is_int_literal(s@));
                    }
                } else {
                    assert(!is_int_literal(s@));
                }
            }
            return None;
        }
        proof {
            assert(acc * 10 + d <= limit) by {
                let l = limit as int;
                assert(acc as int <= (l - d) / 10);
                assert((l - d as int) / 10 * 10 <= l - d) by (nonlinear_arith)
                    requires 0 <= d <= 9, l >= 9,
                ;
                assert(acc * 10 <= (l - d as int) / 10 * 10) by (nonlinear_arith)
                    requires acc as int <= (l - d as int) / 10,
                ;
            }
        }
        acc = acc * 10 + d;
        i += 1;
    }
    proof {
        assert(s@.subrange(start as int, n as int) =~= int_digits(s@));
        assert(is_int_literal(s@)) by {
            lemma_digits_val_bounds(int_digits(s@));
            if neg {
                assert(int_literal_val(s@) == -digits_val(int_digits(s@)));
            }
        }
    }
    if neg {
        if acc == 9223372036854775808 {
            Some(i64::MIN)
        } else {
            Some(-(acc as i64))
        }
    } else {
        Some(acc as i64)
    }
}

/// Turns one raw argument token into a typed value, per the literal grammar.
pub fn parse_value_type(value: String) -> (r: DataValue)
    ensures
        r.model() == literal_model(value@),
{
    proof {
        reveal_strlit("true");
        reveal_strlit("false");
        reveal_strlit("{}");
        assert("true"@ =~= seq!['t', 'r', 'u', 'e']);
        assert("false"@ =~= seq!['f', 'a', 'l', 's', 'e']);
        assert("{}"@ =~= seq!['{', '}']);
    }
    let n = value.as_str().unicode_len();
    if n == 0 {
        return DataValue::String(value);
    }
    if value.as_str().get_char(0) != ':' {
        return DataValue::String(value);
    }
    let rest = value.as_str().substring_char(1, n);
    proof {
        assert(rest@ =~= value@.skip(1));
    }
    match parse_i64(rest) {
        Some(v) => {
            return DataValue::Number(v);
        },
        None => {},
    }
    if str_eq(rest, "true") {
        return DataValue::Boolean(true);
    }
    if str_eq(rest, "false") {
        return DataValue::Boolean(false);
    }
    if str_eq(rest, "{}") {
        return DataValue::Dict(DictBody::Empty);
    }
    DataValue::String(value)
}

} // verus!
