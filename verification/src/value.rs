//! The JSON value tree and its mathematical model.

use vstd::prelude::*;

verus! {

broadcast use vstd::seq::axiom_seq_index_decreases;

/// A parsed JSON value: null, a boolean, a number, a string, an array of
/// values, or an object, that is an ordered list of member-name/value
/// pairs in which insertion order is significant. A number carries its
/// exact source text, so integer and floating representations survive
/// unchanged.
#[derive(Debug, PartialEq, Eq)]
pub enum Json {
    Null,
    Bool(bool),
    Number(String),
    Str(String),
    Array(Vec<Json>),
    Object(Vec<(String, Json)>),
}

/// The mathematical shape of a JSON value: what [`Json`] holds, with
/// every string read as its character sequence.
pub enum JsonModel {
    Null,
    Bool(bool),
    Num(Seq<char>),
    Str(Seq<char>),
    Arr(Seq<JsonModel>),
    Obj(Seq<(Seq<char>, JsonModel)>),
}

/// The model of a [`Json`].
pub open spec fn value_model(v: Json) -> JsonModel
    decreases v,
{
    match v {
        Json::Null => JsonModel::Null,
        Json::Bool(b) => JsonModel::Bool(b),
        Json::Number(n) => JsonModel::Num(n@),
        Json::Str(s) => JsonModel::Str(s@),
        Json::Array(a) => JsonModel::Arr(arr_models(a@)),
        Json::Object(fs) => JsonModel::Obj(entries_model(fs@)),
    }
}

/// The models of a list of array elements, in order.
pub open spec fn arr_models(s: Seq<Json>) -> Seq<JsonModel>
    decreases s,
{
    Seq::new(
        s.len(),
        |i: int|
            if 0 <= i < s.len() {
                value_model(s[i])
            } else {
                JsonModel::Null
            },
    )
}

/// The models of a list of member-name/value pairs, in order.
pub open spec fn entries_model(s: Seq<(String, Json)>) -> Seq<(Seq<char>, JsonModel)>
    decreases s,
{
    Seq::new(
        s.len(),
        |i: int|
            if 0 <= i < s.len() {
                (s[i].0@, value_model(s[i].1))
            } else {
                (Seq::empty(), JsonModel::Null)
            },
    )
}

impl View for Json {
    type V = JsonModel;

    open spec fn view(&self) -> JsonModel {
        value_model(*self)
    }
}

/// The value under `key` in a list of member entries: the first entry
/// whose name equals `key`, or `None` when no entry has that name.
pub open spec fn lookup(fields: Seq<(Seq<char>, JsonModel)>, key: Seq<char>) -> Option<JsonModel>
    decreases fields.len(),
{
    if fields.len() == 0 {
        None
    } else if fields[0].0 == key {
        Some(fields[0].1)
    } else {
        lookup(fields.skip(1), key)
    }
}

impl Json {
    /// Whether this value is a JSON object.
    pub fn is_object(&self) -> (r: bool)
        ensures
            r == (self@ is Obj),
    {
        match self {
            Json::Object(_) => true,
            _ => false,
        }
    }

    /// The member entries of this value when it is an object, `None`
    /// otherwise.
    pub fn as_object(&self) -> (r: Option<&Vec<(String, Json)>>)
        ensures
            match r {
                Some(fs) => self@ == JsonModel::Obj(entries_model(fs@)),
                None => !(self@ is Obj),
            },
    {
        match self {
            Json::Object(fields) => Some(fields),
            _ => None,
        }
    }

    /// The member of this object named `key`, or `None` when this value
    /// is not an object or has no member of that name.
    pub fn get(&self, key: &str) -> (r: Option<&Json>)
        ensures
            match r {
                Some(v) => self@ matches JsonModel::Obj(fs) && lookup(fs, key@) == Some(v@),
                None => (self@ matches JsonModel::Obj(fs) ==> lookup(fs, key@) is None),
            },
    {
        match self {
            Json::Object(fields) => {
                let ghost fs = entries_model(fields@);
                proof {
                    assert(fs.skip(0) =~= fs);
                }
                let n = fields.len();
                let mut i: usize = 0;
                while i < n
                    invariant
                        i <= n,
                        n == fields@.len(),
                        fs == entries_model(fields@),
                        self@ == JsonModel::Obj(fs),
                        lookup(fs, key@) == lookup(fs.skip(i as int), key@),
                    decreases n - i,
                {
                    if str_eq(fields[i].0.as_str(), key) {
                        return Some(&fields[i].1);
                    }
                    proof {
                        assert(fs.skip(i as int)[0] == fs[i as int]);
                        assert(fs.skip(i as int).skip(1) =~= fs.skip(i as int + 1));
                    }
                    i = i + 1;
                }
                proof {
                    assert(fs.skip(n as int) =~= Seq::<(Seq<char>, JsonModel)>::empty());
                }
                None
            },
            _ => None,
        }
    }
}

/// Whether two string slices hold the same characters.
pub fn str_eq(a: &str, b: &str) -> (r: bool)
    ensures
        r == (a@ == b@),
{
    let na = a.unicode_len();
    let nb = b.unicode_len();
    if na != nb {
        proof {
            assert(a@ != b@) by {
                if a@ == b@ {
                    assert(a@.len() == b@.len());
                }
            }
        }
        return false;
    }
    let mut i: usize = 0;
    while i < na
        invariant
            i <= na,
            na == a@.len(),
            na == b@.len(),
            forall|j: int| 0 <= j < i ==> a@[j] == b@[j],
        decreases na - i,
    {
        if a.get_char(i) != b.get_char(i) {
            return false;
        }
        i = i + 1;
    }
    proof {
        assert(a@ =~= b@);
    }
    true
}

} // verus!
