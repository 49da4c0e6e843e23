use vstd::prelude::*;

verus! {

/// The two failure classes of the grammar: `NoMatch` means the form was not
/// recognised at the current position and a sibling alternative may still be
/// tried; `Malformed` means a committing token (`[`, `Some(`, an opening
/// quote) was consumed and the required continuation is missing, so the
/// failure is hard.
#[derive(Debug, Clone, Copy, PartialEq, Eq, Structural)]
pub enum ErrorKind {
    NoMatch,
    Malformed,
}

/// A parse failure: its class, and the remaining input at the position where
/// matching stopped.
#[derive(Debug, Clone, Copy, PartialEq)]
pub struct ParseError<'a> {
    pub kind: ErrorKind,
    pub at: &'a str,
}

/// The parsed value tree. A float is held as the bit pattern of the IEEE-754
/// double that its literal denotes; `String` borrows the span between the
/// quotes from the input buffer.
#[derive(Debug, PartialEq)]
pub enum Value<'a> {
    Float(u64),
    Boolean(bool),
    String(&'a str),
    Char(char),
    List(Vec<Value<'a>>),
    Option(Option<Box<Value<'a>>>),
}

/// The mathematical model of a value tree: text becomes a sequence of
/// characters, a list becomes a sequence of models.
pub enum SpecValue {
    Float(u64),
    Boolean(bool),
    Str(Seq<char>),
    Char(char),
    List(Seq<SpecValue>),
    Opt(Option<Box<SpecValue>>),
}

/// The model of an executable value tree.
pub open spec fn value_view(v: Value) -> SpecValue
    decreases v,
{
    match v {
        Value::Float(bits) => SpecValue::Float(bits),
        Value::Boolean(b) => SpecValue::Boolean(b),
        Value::String(s) => SpecValue::Str(s@),
        Value::Char(c) => SpecValue::Char(c),
        Value::List(l) => SpecValue::List(views_of(l@)),
        Value::Option(o) => SpecValue::Opt(match o {
            Option::None => Option::None,
            Option::Some(b) => Option::Some(Box::new(value_view(*b))),
        }),
    }
}

/// The models of a sequence of executable values, in order.
pub open spec fn views_of(l: Seq<Value>) -> Seq<SpecValue>
    decreases l,
{
    if l.len() == 0 {
        Seq::empty()
    } else {
        seq![value_view(l[0])] + views_of(l.subrange(1, l.len() as int))
    }
}

/// The model of an optional executable value.
pub open spec fn opt_view(o: Option<Box<Value>>) -> Option<Box<SpecValue>> {
    match o {
        Option::None => Option::None,
        Option::Some(b) => Option::Some(Box::new(value_view(*b))),
    }
}

/// Appending one value appends its model.
pub proof fn lemma_views_of_push(l: Seq<Value>, x: Value)
    ensures
        views_of(l.push(x)) == views_of(l).push(value_view(x)),
    decreases l.len(),
{
    if l.len() == 0 {
        assert(l.push(x)[0] == x);
        assert(l.push(x).subrange(1, l.push(x).len() as int) =~= Seq::<Value>::empty());
        assert(views_of(Seq::<Value>::empty()) =~= Seq::<SpecValue>::empty());
        assert(views_of(l.push(x)) =~= views_of(l).push(value_view(x)));
    } else {
        lemma_views_of_push(l.subrange(1, l.len() as int), x);
        assert(l.push(x)[0] == l[0]);
        assert(l.push(x).subrange(1, l.push(x).len() as int) =~= l.subrange(
            1,
            l.len() as int,
        ).push(x));
        assert(views_of(l.push(x)) =~= views_of(l).push(value_view(x)));
    }
}

impl<'a> View for Value<'a> {
    type V = SpecValue;

    open spec fn view(&self) -> SpecValue {
        value_view(*self)
    }
}

} // verus!

verus! {

/// One unfolding of `value_view`, stated for use at a call site.
pub proof fn lemma_value_view(v: Value)
    ensures
        value_view(v) == (match v {
            Value::Float(bits) => SpecValue::Float(bits),
            Value::Boolean(b) => SpecValue::Boolean(b),
            Value::String(s) => SpecValue::Str(s@),
            Value::Char(c) => SpecValue::Char(c),
            Value::List(l) => SpecValue::List(views_of(l@)),
            Value::Option(o) => SpecValue::Opt(opt_view(o)),
        }),
{
}

} // verus!
