//! The value model: the executable `Value` and its mathematical view `Val`.
use vstd::prelude::*;

verus! {

broadcast use {vstd::std_specs::vec::group_vec_axioms, vstd::seq::group_seq_axioms};

/// What a value is, stated over mathematical sequences and integers.
pub enum Val {
    Null,
    Boolean(bool),
    Integer(int),
    /// The IEEE-754 binary64 bit pattern of the number.
    Float(u64),
    Bytes(Seq<u8>),
    /// UTF-8 text, as its encoded bytes.
    Text(Seq<u8>),
    List(Seq<Val>),
    /// Key-value pairs in order; the keys are UTF-8 text.
    Dict(Seq<(Seq<u8>, Val)>),
    Structure(u8, Seq<Val>),
}

/// A PackStream value.
#[derive(PartialEq, Eq, Debug)]
pub enum Value {
    Null,
    Boolean(bool),
    Integer(i64),
    /// The IEEE-754 binary64 bit pattern of the number.
    Float(u64),
    Bytes(Vec<u8>),
    /// UTF-8 text, held as its encoded bytes.
    String(Vec<u8>),
    List(Vec<Value>),
    /// Key-value pairs in order; each key holds UTF-8 text.
    Dict(Vec<(Vec<u8>, Value)>),
    /// A tagged record with positional fields.
    Structure(u8, Vec<Value>),
}

impl Value {
    pub open spec fn model(self) -> Val
        decreases self,
    {
        match self {
            Value::Null => Val::Null,
            Value::Boolean(b) => Val::Boolean(b),
            Value::Integer(i) => Val::Integer(i as int),
            Value::Float(bits) => Val::Float(bits),
            Value::Bytes(b) => Val::Bytes(b@),
            Value::String(s) => Val::Text(s@),
            Value::List(items) => Val::List(models(items@)),
            Value::Dict(entries) => Val::Dict(entry_models(entries@)),
            Value::Structure(tag, fields) => Val::Structure(tag, models(fields@)),
        }
    }
}

/// The views of a sequence of values, one for one.
pub open spec fn models(s: Seq<Value>) -> Seq<Val>
    decreases s,
{
    if s.len() == 0 {
        Seq::empty()
    } else {
        models(s.drop_last()).push(s.last().model())
    }
}

/// The views of a sequence of map entries, one for one.
pub open spec fn entry_models(s: Seq<(Vec<u8>, Value)>) -> Seq<(Seq<u8>, Val)>
    decreases s,
{
    if s.len() == 0 {
        Seq::empty()
    } else {
        entry_models(s.drop_last()).push((s.last().0@, s.last().1.model()))
    }
}

impl View for Value {
    type V = Val;

    open spec fn view(&self) -> Val {
        self.model()
    }
}

pub proof fn lemma_models_len(s: Seq<Value>)
    ensures
        models(s).len() == s.len(),
        forall|i: int| 0 <= i < s.len() ==> #[trigger] models(s)[i] == s[i].model(),
    decreases s.len(),
{
    if s.len() > 0 {
        lemma_models_len(s.drop_last());
    }
}

} // verus!

verus! {

pub proof fn lemma_entry_models_len(s: Seq<(Vec<u8>, Value)>)
    ensures
        entry_models(s).len() == s.len(),
        forall|i: int|
            0 <= i < s.len() ==> #[trigger] entry_models(s)[i] == (s[i].0@, s[i].1.model()),
    decreases s.len(),
{
    if s.len() > 0 {
        lemma_entry_models_len(s.drop_last());
    }
}

} // verus!
