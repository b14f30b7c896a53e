use vstd::prelude::*;

verus! {

/// The uniform structural representation that the store keeps under each key.
/// A value of any shape the encoding supports is built out of these variants;
/// strings are carried as their UTF-8 bytes.
pub enum Value {
    Null,
    Bool(bool),
    Int(i64),
    Str(Vec<u8>),
    Arr(Vec<Value>),
    Obj(Vec<(Vec<u8>, Value)>),
}

/// The mathematical model of a `Value`: integers are unbounded, sequences
/// replace vectors. Decoding is specified over this type, so a decoded
/// integer can be described before its range is checked.
pub enum SpecValue {
    Null,
    Bool(bool),
    Int(int),
    Str(Seq<u8>),
    Arr(Seq<SpecValue>),
    Obj(Seq<(Seq<u8>, SpecValue)>),
}

pub open spec fn view_of(v: Value) -> SpecValue
    decreases v, 0int,
{
    match v {
        Value::Null => SpecValue::Null,
        Value::Bool(b) => SpecValue::Bool(b),
        Value::Int(i) => SpecValue::Int(i as int),
        Value::Str(s) => SpecValue::Str(s@),
        Value::Arr(items) => SpecValue::Arr(views_of_list(items@)),
        Value::Obj(pairs) => SpecValue::Obj(views_of_pairs(pairs@)),
    }
}

pub open spec fn views_of_list(s: Seq<Value>) -> Seq<SpecValue>
    decreases s, 1int,
{
    if s.len() == 0 {
        Seq::empty()
    } else {
        seq![view_of(s[0])] + views_of_list(s.drop_first())
    }
}

pub open spec fn views_of_pairs(s: Seq<(Vec<u8>, Value)>) -> Seq<(Seq<u8>, SpecValue)>
    decreases s, 1int,
{
    if s.len() == 0 {
        Seq::empty()
    } else {
        seq![(s[0].0@, view_of(s[0].1))] + views_of_pairs(s.drop_first())
    }
}

impl View for Value {
    type V = SpecValue;

    open spec fn view(&self) -> SpecValue {
        view_of(*self)
    }
}

/// How `views_of_list` acts pointwise.
pub proof fn lemma_views_of_list(s: Seq<Value>)
    ensures
        views_of_list(s).len() == s.len(),
        forall|i: int| 0 <= i < s.len() ==> views_of_list(s)[i] == view_of(#[trigger] s[i]),
    decreases s.len(),
{
    if s.len() > 0 {
        lemma_views_of_list(s.drop_first());
        assert forall|i: int| 0 <= i < s.len() implies views_of_list(s)[i] == view_of(
            #[trigger] s[i],
        ) by {
            if i > 0 {
                assert(s.drop_first()[i - 1] == s[i]);
                assert(views_of_list(s)[i] == views_of_list(s.drop_first())[i - 1]);
            }
        }
    }
}

/// How `views_of_pairs` acts pointwise.
pub proof fn lemma_views_of_pairs(s: Seq<(Vec<u8>, Value)>)
    ensures
        views_of_pairs(s).len() == s.len(),
        forall|i: int|
            0 <= i < s.len() ==> views_of_pairs(s)[i] == ((#[trigger] s[i]).0@, view_of(s[i].1)),
    decreases s.len(),
{
    if s.len() > 0 {
        lemma_views_of_pairs(s.drop_first());
        assert forall|i: int| 0 <= i < s.len() implies views_of_pairs(s)[i] == ((
        #[trigger] s[i]).0@, view_of(s[i].1)) by {
            if i > 0 {
                assert(s.drop_first()[i - 1] == s[i]);
                assert(views_of_pairs(s)[i] == views_of_pairs(s.drop_first())[i - 1]);
            }
        }
    }
}

/// Appending one element extends the view list by that element's view.
pub proof fn lemma_views_of_list_push(s: Seq<Value>, v: Value)
    ensures
        views_of_list(s.push(v)) == views_of_list(s) + seq![view_of(v)],
{
    lemma_views_of_list(s.push(v));
    lemma_views_of_list(s);
    assert forall|i: int|
        0 <= i < s.len() + 1 implies views_of_list(s.push(v))[i] == (views_of_list(s) + seq![
        view_of(v),
    ])[i] by {
        if i < s.len() {
            assert(s.push(v)[i] == s[i]);
        } else {
            assert(s.push(v)[i] == v);
        }
    }
    assert(views_of_list(s.push(v)) =~= views_of_list(s) + seq![view_of(v)]);
}

/// Appending one pair extends the view list by that pair's views.
pub proof fn lemma_views_of_pairs_push(s: Seq<(Vec<u8>, Value)>, p: (Vec<u8>, Value))
    ensures
        views_of_pairs(s.push(p)) == views_of_pairs(s) + seq![(p.0@, view_of(p.1))],
{
    lemma_views_of_pairs(s.push(p));
    lemma_views_of_pairs(s);
    assert forall|i: int|
        0 <= i < s.len() + 1 implies views_of_pairs(s.push(p))[i] == (views_of_pairs(s) + seq![
        (p.0@, view_of(p.1)),
    ])[i] by {
        if i < s.len() {
            assert(s.push(p)[i] == s[i]);
        } else {
            assert(s.push(p)[i] == p);
        }
    }
    assert(views_of_pairs(s.push(p)) =~= views_of_pairs(s) + seq![(p.0@, view_of(p.1))]);
}

/// Every integer in the value fits in an `i64`, so the value is one that an
/// executable `Value` can represent.
pub open spec fn value_wf(v: SpecValue) -> bool
    decreases v,
{
    match v {
        SpecValue::Null => true,
        SpecValue::Bool(_) => true,
        SpecValue::Int(i) => i64::MIN <= i <= i64::MAX,
        SpecValue::Str(_) => true,
        SpecValue::Arr(items) => forall|i: int|
            0 <= i < items.len() ==> value_wf(#[trigger] items[i]),
        SpecValue::Obj(pairs) => forall|i: int|
            0 <= i < pairs.len() ==> value_wf(#[trigger] pairs[i].1),
    }
}

/// The view of an executable value is always well formed.
pub proof fn lemma_view_wf(v: Value)
    ensures
        value_wf(v@),
    decreases v, 0int,
{
    match v {
        Value::Arr(items) => {
            lemma_views_of_list(items@);
            lemma_list_view_wf(items@);
            assert forall|i: int| 0 <= i < views_of_list(items@).len() implies value_wf(
                #[trigger] views_of_list(items@)[i],
            ) by {
                assert(views_of_list(items@)[i] == view_of(items@[i]));
            }
        }
        Value::Obj(pairs) => {
            lemma_views_of_pairs(pairs@);
            lemma_pairs_view_wf(pairs@);
            assert forall|i: int| 0 <= i < views_of_pairs(pairs@).len() implies value_wf(
                (#[trigger] views_of_pairs(pairs@)[i]).1,
            ) by {
                assert(views_of_pairs(pairs@)[i] == (pairs@[i].0@, view_of(pairs@[i].1)));
            }
        }
        _ => {}
    }
}

proof fn lemma_list_view_wf(s: Seq<Value>)
    ensures
        forall|i: int| 0 <= i < s.len() ==> value_wf(view_of(#[trigger] s[i])),
    decreases s, 1int,
{
    if s.len() > 0 {
        lemma_view_wf(s[0]);
        lemma_list_view_wf(s.drop_first());
        assert forall|i: int| 0 <= i < s.len() implies value_wf(view_of(#[trigger] s[i])) by {
            if i > 0 {
                assert(s.drop_first()[i - 1] == s[i]);
            }
        }
    }
}

proof fn lemma_pairs_view_wf(s: Seq<(Vec<u8>, Value)>)
    ensures
        forall|i: int| 0 <= i < s.len() ==> value_wf(view_of((#[trigger] s[i]).1)),
    decreases s, 1int,
{
    if s.len() > 0 {
        lemma_view_wf(s[0].1);
        lemma_pairs_view_wf(s.drop_first());
        assert forall|i: int| 0 <= i < s.len() implies value_wf(view_of((#[trigger] s[i]).1)) by {
            if i > 0 {
                assert(s.drop_first()[i - 1] == s[i]);
            }
        }
    }
}

/// A value and its model are built by the same constructor.
pub proof fn lemma_view_variant(v: Value)
    ensures
        v@ is Null <==> v is Null,
        v@ is Bool <==> v is Bool,
        v@ is Int <==> v is Int,
        v@ is Str <==> v is Str,
        v@ is Arr <==> v is Arr,
        v@ is Obj <==> v is Obj,
{
    match v {
        Value::Null => {}
        Value::Bool(_) => {}
        Value::Int(_) => {}
        Value::Str(_) => {}
        Value::Arr(_) => {}
        Value::Obj(_) => {}
    }
}

/// The error taxonomy of the store, as its callers see it.
/// `MissingKey` reports a key that was never inserted; `Decoding` reports
/// stored or supplied bytes whose shape does not match what was requested.
#[derive(Clone, Copy, Debug, PartialEq, Eq, Structural)]
pub enum SaveError {
    MissingKey,
    Decoding,
}

impl Value {
    /// The stored value, if its shape is an integer; a decoding failure otherwise.
    pub fn as_int(&self) -> (r: Result<i64, SaveError>)
        ensures
            match r {
                Ok(i) => self@ == SpecValue::Int(i as int),
                Err(e) => e == SaveError::Decoding && !(self@ is Int),
            },
    {
        match self {
            Value::Int(i) => Ok(*i),
            _ => Err(SaveError::Decoding),
        }
    }

    /// The stored value, if its shape is a boolean; a decoding failure otherwise.
    pub fn as_bool(&self) -> (r: Result<bool, SaveError>)
        ensures
            match r {
                Ok(b) => self@ == SpecValue::Bool(b),
                Err(e) => e == SaveError::Decoding && !(self@ is Bool),
            },
    {
        match self {
            Value::Bool(b) => Ok(*b),
            _ => Err(SaveError::Decoding),
        }
    }

    /// The stored string's bytes, if the shape is a string; a decoding failure otherwise.
    pub fn as_str_bytes(&self) -> (r: Result<&Vec<u8>, SaveError>)
        ensures
            match r {
                Ok(s) => self@ == SpecValue::Str(s@),
                Err(e) => e == SaveError::Decoding && !(self@ is Str),
            },
    {
        match self {
            Value::Str(s) => Ok(s),
            _ => Err(SaveError::Decoding),
        }
    }

    /// The field stored under `name` in an object value: the first field
    /// carrying that name. A decoding failure exactly when the shape is not
    /// an object, or is an object with no field of that name.
    pub fn obj_field(&self, name: &Vec<u8>) -> (r: Result<&Value, SaveError>)
        ensures
            match r {
                Ok(f) => self@ is Obj && exists|i: int|
                    0 <= i < self@->Obj_0.len() && #[trigger] self@->Obj_0[i] == (name@, f@)
                        && forall|j: int| 0 <= j < i ==> (#[trigger] self@->Obj_0[j]).0 != name@,
                Err(e) => e == SaveError::Decoding && (!(self@ is Obj) || forall|i: int|
                    0 <= i < self@->Obj_0.len() ==> (#[trigger] self@->Obj_0[i]).0 != name@),
            },
    {
        match self {
            Value::Obj(pairs) => {
                proof {
                    assert(self@ == SpecValue::Obj(views_of_pairs(pairs@)));
                }
                let n = pairs.len();
                for i in 0..n
                    invariant
                        n == pairs.len(),
                        self@ == SpecValue::Obj(views_of_pairs(pairs@)),
                        forall|j: int|
                            0 <= j < i ==> (#[trigger] views_of_pairs(pairs@)[j]).0 != name@,
                {
                    proof {
                        lemma_views_of_pairs(pairs@);
                        assert(views_of_pairs(pairs@)[i as int] == (
                            pairs@[i as int].0@,
                            view_of(pairs@[i as int].1),
                        ));
                    }
                    if bytes_eq(&pairs[i].0, name) {
                        proof {
                            assert(self@->Obj_0[i as int] == (name@, pairs@[i as int].1@));
                        }
                        return Ok(&pairs[i].1);
                    }
                }
                proof {
                    lemma_views_of_pairs(pairs@);
                }
                Err(SaveError::Decoding)
            }
            _ => {
                proof {
                    lemma_view_variant(*self);
                }
                Err(SaveError::Decoding)
            }
        }
    }
}

/// Two byte vectors hold the same bytes.
pub fn bytes_eq(a: &Vec<u8>, b: &Vec<u8>) -> (r: bool)
    ensures
        r == (a@ == b@),
{
    if a.len() != b.len() {
        assert(a@ != b@) by {
            assert(a@.len() != b@.len());
        }
        return false;
    }
    let n = a.len();
    for i in 0..n
        invariant
            n == a.len() && n == b.len(),
            forall|j: int| 0 <= j < i ==> a@[j] == b@[j],
    {
        if a[i] != b[i] {
            return false;
        }
    }
    proof {
        assert(a@ =~= b@);
    }
    true
}

} // verus!

