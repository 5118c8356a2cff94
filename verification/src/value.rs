use crate::error::RespError;
use crate::text::{decimal, usize_to_decimal};
use vstd::prelude::*;
use vstd::utf8::encode_utf8;

verus! {

/// The abstract form of a RESP value: strings are sequences of characters.
pub enum ValueView {
    SimpleString(Seq<char>),
    Error(Seq<char>),
    BulkString(Seq<char>),
    Array(Seq<ValueView>),
    Null,
}

/// A value of the RESP wire protocol.
#[derive(Debug, PartialEq, Eq)]
pub enum Value {
    SimpleString(String),
    Error(String),
    BulkString(String),
    Array(Vec<Value>),
    Null,
}

/// The abstract form of one value.
pub open spec fn value_view(v: Value) -> ValueView
    decreases v,
{
    match v {
        Value::SimpleString(s) => ValueView::SimpleString(s@),
        Value::Error(s) => ValueView::Error(s@),
        Value::BulkString(s) => ValueView::BulkString(s@),
        Value::Array(items) => ValueView::Array(views_of(items@)),
        Value::Null => ValueView::Null,
    }
}

/// The abstract forms of a sequence of values, in order.
pub open spec fn views_of(items: Seq<Value>) -> Seq<ValueView>
    decreases items,
{
    if items.len() == 0 {
        Seq::empty()
    } else {
        views_of(items.subrange(0, items.len() - 1)).push(value_view(items[items.len() - 1]))
    }
}

impl View for Value {
    type V = ValueView;

    open spec fn view(&self) -> ValueView {
        value_view(*self)
    }
}

/// Each element of `views_of(items)` is the view of the element of `items`
/// at the same place.
pub proof fn lemma_views_of(items: Seq<Value>)
    ensures
        views_of(items).len() == items.len(),
        forall|i: int| 0 <= i < items.len() ==> #[trigger] views_of(items)[i] == value_view(items[i]),
    decreases items.len(),
{
    if items.len() > 0 {
        lemma_views_of(items.subrange(0, items.len() - 1));
    }
}

/// The two characters that end every line of the protocol.
pub open spec fn crlf() -> Seq<char> {
    seq!['\r', '\n']
}

/// True for the values that `encode` writes: every value but an array.
pub open spec fn is_encodable(v: ValueView) -> bool {
    !(v is Array)
}

/// The text that `encode` writes for a value: a type byte, then the line of
/// a simple string or error, or the byte length and the content of a bulk
/// string, each line ended by CR LF; null is the bulk string of length -1.
pub open spec fn encoding(v: ValueView) -> Seq<char> {
    match v {
        ValueView::SimpleString(s) => seq!['+'] + s + crlf(),
        ValueView::Error(m) => seq!['-'] + m + crlf(),
        ValueView::BulkString(s) => seq!['$'] + decimal(encode_utf8(s).len()) + crlf() + s + crlf(),
        ValueView::Null => seq!['$', '-', '1'] + crlf(),
        ValueView::Array(_) => Seq::empty(),
    }
}

/// True for a value that `to_command` accepts without failing on it: any
/// value that is not an array, and an array whose first element is a bulk
/// string.
pub open spec fn is_command_shaped(v: ValueView) -> bool {
    v matches ValueView::Array(items) ==> items.len() > 0 && items[0] is BulkString
}

impl Value {
    /// A copy of the value, element by element.
    pub fn deep_copy(&self) -> (r: Value)
        ensures
            r@ == self@,
        decreases self,
    {
        match self {
            Value::SimpleString(s) => Value::SimpleString(s.clone()),
            Value::Error(s) => Value::Error(s.clone()),
            Value::BulkString(s) => Value::BulkString(s.clone()),
            Value::Null => Value::Null,
            Value::Array(items) => {
                let copied = copy_values(items, 0);
                assert(items@.skip(0) =~= items@);
                Value::Array(copied)
            },
        }
    }

    /// The content of a bulk string.
    pub fn unwrap_bulk(&self) -> (r: String)
        requires
            self@ is BulkString,
        ensures
            self@ == ValueView::BulkString(r@),
    {
        match self {
            Value::BulkString(s) => s.clone(),
            _ => {
                proof {
                    assert(false);
                }
                String::new()
            },
        }
    }

    /// Splits an array into its command name, the first element, and its
    /// arguments, the other elements in order. A value that is not an array
    /// is refused.
    pub fn to_command(&self) -> (r: Result<(String, Vec<Value>), RespError>)
        requires
            is_command_shaped(self@),
        ensures
            match self@ {
                ValueView::Array(items) => r matches Ok((name, args)) && items[0]
                    == ValueView::BulkString(name@) && views_of(args@) == items.drop_first(),
                _ => r == Err::<(String, Vec<Value>), RespError>(RespError::NotArray),
            },
    {
        match self {
            Value::Array(items) => {
                proof {
                    lemma_views_of(items@);
                }
                let name = items[0].unwrap_bulk();
                let args = copy_values(items, 1);
                proof {
                    lemma_views_of(items@.skip(1));
                    assert(views_of(items@.skip(1)) =~= views_of(items@).drop_first());
                }
                Ok((name, args))
            },
            _ => Err(RespError::NotArray),
        }
    }

    /// The text of a value on the wire; arrays are not written.
    pub fn encode(self) -> (r: String)
        requires
            is_encodable(self@),
        ensures
            r@ == encoding(self@),
    {
        proof {
            reveal_strlit("+");
            reveal_strlit("-");
            reveal_strlit("$");
            reveal_strlit("\r\n");
            reveal_strlit("$-1\r\n");
        }
        let mut r = String::new();
        match &self {
            Value::SimpleString(s) => {
                r.append("+");
                r.append(s.as_str());
                r.append("\r\n");
                assert(r@ =~= seq!['+'] + s@ + crlf());
            },
            Value::Error(m) => {
                r.append("-");
                r.append(m.as_str());
                r.append("\r\n");
                assert(r@ =~= seq!['-'] + m@ + crlf());
            },
            Value::BulkString(s) => {
                let digits = usize_to_decimal(s.as_str().as_bytes().len());
                r.append("$");
                r.append(digits.as_str());
                r.append("\r\n");
                r.append(s.as_str());
                r.append("\r\n");
                assert(r@ =~= seq!['$'] + digits@ + crlf() + s@ + crlf());
            },
            Value::Null => {
                r.append("$-1\r\n");
                assert(r@ =~= seq!['$', '-', '1'] + crlf());
            },
            Value::Array(_) => {
                proof {
                    assert(false);
                }
            },
        }
        r
    }
}

impl Value {
    /// The text of the value on the wire, or `None` for an array, which
    /// `encode` does not write.
    pub fn try_encode(self) -> (r: Option<String>)
        ensures
            is_encodable(self@) ==> (r matches Some(text) && text@ == encoding(self@)),
            !is_encodable(self@) ==> r is None,
    {
        let writable = match &self {
            Value::Array(_) => false,
            _ => true,
        };
        if writable {
            Some(self.encode())
        } else {
            None
        }
    }
}

/// Copies of the elements of `items` from place `start` on, in order.
fn copy_values(items: &Vec<Value>, start: usize) -> (r: Vec<Value>)
    requires
        start <= items.len(),
    ensures
        views_of(r@) == views_of(items@.skip(start as int)),
    decreases items, 0nat,
{
    let mut out: Vec<Value> = Vec::new();
    let mut i: usize = start;
    while i < items.len()
        invariant
            start <= i <= items.len(),
            views_of(out@) == views_of(items@.subrange(start as int, i as int)),
        decreases items.len() - i,
    {
        let copy = items[i].deep_copy();
        proof {
            let before = items@.subrange(start as int, i as int);
            let after = items@.subrange(start as int, i + 1);
            assert(after.subrange(0, after.len() - 1) =~= before);
            assert(out@.push(copy).subrange(0, out@.len() as int) =~= out@);
        }
        out.push(copy);
        i += 1;
    }
    proof {
        assert(items@.subrange(start as int, items.len() as int) =~= items@.skip(start as int));
    }
    out
}

} // verus!
