//! The scalar a node carries, and its byte encoding: one discriminant byte,
//! then the payload of that kind.

use vstd::prelude::*;
use vstd::utf8::{decode_utf8, encode_utf8, valid_utf8};
use vstd::utf8::{decode_utf8_encode_utf8, encode_utf8_decode_utf8, encode_utf8_valid_utf8};
use vstd::std_specs::cmp::PartialEqSpecImpl;
use crate::bytes::{be_i64, i64_be, lemma_be_i64_of_i64_be, lemma_i64_be_of_be_i64};
use crate::bytes::{push_i64_be, read_i64_be};
use crate::error::FormatError;

verus! {

/// Discriminant of [`Val::Nothing`].
pub const TAG_NOTHING: u8 = 0;

/// Discriminant of [`Val::Num`].
pub const TAG_NUM: u8 = 1;

/// Discriminant of [`Val::Txt`].
pub const TAG_TXT: u8 = 2;

/// Discriminant of [`Val::Bool`].
pub const TAG_BOOL: u8 = 3;

/// A scalar value of one of four kinds.
#[derive(Debug, Hash)]
pub enum Val {
    Nothing,
    Num(i64),
    Txt(String),
    Bool(bool),
}

/// What a [`Val`] stands for: the kind and the content, with a text as its characters.
pub enum ValView {
    Nothing,
    Num(i64),
    Txt(Seq<char>),
    Bool(bool),
}

impl View for Val {
    type V = ValView;

    open spec fn view(&self) -> ValView {
        match self {
            Val::Nothing => ValView::Nothing,
            Val::Num(x) => ValView::Num(*x),
            Val::Txt(s) => ValView::Txt(s@),
            Val::Bool(b) => ValView::Bool(*b),
        }
    }
}

impl Clone for Val {
    fn clone(&self) -> (r: Val)
        ensures
            r@ == self@,
    {
        match self {
            Val::Nothing => Val::Nothing,
            Val::Num(x) => Val::Num(*x),
            Val::Txt(s) => Val::Txt(s.clone()),
            Val::Bool(b) => Val::Bool(*b),
        }
    }
}

impl PartialEq for Val {
    fn eq(&self, other: &Val) -> (r: bool) {
        match self {
            Val::Nothing => match other {
                Val::Nothing => true,
                _ => false,
            },
            Val::Num(x) => match other {
                Val::Num(y) => *x == *y,
                _ => false,
            },
            Val::Txt(s) => match other {
                Val::Txt(t) => *s == *t,
                _ => false,
            },
            Val::Bool(b) => match other {
                Val::Bool(c) => *b == *c,
                _ => false,
            },
        }
    }
}

impl PartialEqSpecImpl for Val {
    open spec fn obeys_eq_spec() -> bool {
        true
    }

    open spec fn eq_spec(&self, other: &Val) -> bool {
        self@ == other@
    }
}

impl Eq for Val {

}

/// The byte record of a value: its discriminant, then its payload.
pub open spec fn encode_value(v: ValView) -> Seq<u8> {
    match v {
        ValView::Nothing => seq![TAG_NOTHING],
        ValView::Num(x) => seq![TAG_NUM] + i64_be(x),
        ValView::Txt(s) => seq![TAG_TXT] + encode_utf8(s),
        ValView::Bool(b) => seq![TAG_BOOL, if b { 1u8 } else { 0u8 }],
    }
}

/// The value that a byte record holds, or why it holds none.
pub open spec fn decode_value(b: Seq<u8>) -> Result<ValView, FormatError> {
    if b.len() == 0 {
        Err(FormatError::Truncated)
    } else if b[0] == TAG_NOTHING {
        if b.len() == 1 {
            Ok(ValView::Nothing)
        } else {
            Err(FormatError::TrailingBytes)
        }
    } else if b[0] == TAG_NUM {
        if b.len() < 9 {
            Err(FormatError::Truncated)
        } else if b.len() > 9 {
            Err(FormatError::WrongWidth)
        } else {
            Ok(ValView::Num(be_i64(b.subrange(1, 9))))
        }
    } else if b[0] == TAG_TXT {
        if valid_utf8(b.subrange(1, b.len() as int)) {
            Ok(ValView::Txt(decode_utf8(b.subrange(1, b.len() as int))))
        } else {
            Err(FormatError::InvalidUtf8)
        }
    } else if b[0] == TAG_BOOL {
        if b.len() < 2 {
            Err(FormatError::Truncated)
        } else if b.len() > 2 {
            Err(FormatError::TrailingBytes)
        } else if b[1] == 0 {
            Ok(ValView::Bool(false))
        } else if b[1] == 1 {
            Ok(ValView::Bool(true))
        } else {
            Err(FormatError::InvalidBool)
        }
    } else {
        Err(FormatError::UnknownDiscriminant)
    }
}

/// Every value comes back from its own byte record.
pub proof fn lemma_value_round_trip(v: ValView)
    ensures
        decode_value(encode_value(v)) == Ok::<ValView, FormatError>(v),
{
    let b = encode_value(v);
    match v {
        ValView::Nothing => {},
        ValView::Num(x) => {
            lemma_be_i64_of_i64_be(x);
            assert(b.subrange(1, 9) =~= i64_be(x));
        },
        ValView::Txt(s) => {
            assert(b.subrange(1, b.len() as int) =~= encode_utf8(s));
            encode_utf8_valid_utf8(s);
            encode_utf8_decode_utf8(s);
        },
        ValView::Bool(_) => {},
    }
}

/// A byte record that decodes is the record of the value it decodes to: no
/// two byte strings stand for one value.
pub proof fn lemma_value_record_unique(b: Seq<u8>)
    requires
        decode_value(b) is Ok,
    ensures
        encode_value(decode_value(b)->Ok_0) == b,
{
    let v = decode_value(b)->Ok_0;
    if b[0] == TAG_NUM {
        lemma_i64_be_of_be_i64(b.subrange(1, 9));
        assert(encode_value(v) =~= b);
    } else if b[0] == TAG_TXT {
        decode_utf8_encode_utf8(b.subrange(1, b.len() as int));
        assert(encode_value(v) =~= b);
    } else {
        assert(encode_value(v) =~= b);
    }
}

/// `String::from_utf8` of std: the bytes become a string exactly when they are
/// UTF-8, and the string then consists of those bytes.
#[verifier::external_body]
pub(crate) fn string_from_utf8(bytes: Vec<u8>) -> (r: Option<String>)
    ensures
        r is Some <==> valid_utf8(bytes@),
        r matches Some(s) ==> encode_utf8(s@) == bytes@,
{
    String::from_utf8(bytes).ok()
}

/// Copies `bytes[from..to]` into a vector of its own.
pub(crate) fn copy_range(bytes: &Vec<u8>, from: usize, to: usize) -> (r: Vec<u8>)
    requires
        from <= to <= bytes.len(),
    ensures
        r@ == bytes@.subrange(from as int, to as int),
{
    let mut out: Vec<u8> = Vec::new();
    let mut i: usize = from;
    while i < to
        invariant
            from <= i <= to <= bytes.len(),
            out@ == bytes@.subrange(from as int, i as int),
        decreases to - i,
    {
        out.push(bytes[i]);
        i += 1;
        assert(out@ =~= bytes@.subrange(from as int, i as int));
    }
    out
}

/// Appends the UTF-8 bytes of `s` to `out`.
pub(crate) fn push_str_bytes(out: &mut Vec<u8>, s: &str)
    ensures
        final(out)@ == old(out)@ + encode_utf8(s@),
{
    let raw = s.as_bytes();
    let n = raw.len();
    let mut i: usize = 0;
    while i < n
        invariant
            i <= n == raw@.len(),
            raw@ == encode_utf8(s@),
            out@ == old(out)@ + raw@.subrange(0, i as int),
        decreases n - i,
    {
        out.push(raw[i]);
        i += 1;
        assert(out@ =~= old(out)@ + raw@.subrange(0, i as int));
    }
    assert(raw@.subrange(0, n as int) =~= raw@);
}

impl Val {
    /// The byte record of this value.
    pub fn to_bytes(&self) -> (out: Vec<u8>)
        ensures
            out@ == encode_value(self@),
    {
        let mut out: Vec<u8> = Vec::new();
        match self {
            Val::Nothing => {
                out.push(TAG_NOTHING);
            },
            Val::Num(x) => {
                out.push(TAG_NUM);
                push_i64_be(&mut out, *x);
            },
            Val::Txt(s) => {
                out.push(TAG_TXT);
                push_str_bytes(&mut out, s.as_str());
            },
            Val::Bool(b) => {
                out.push(TAG_BOOL);
                if *b {
                    out.push(1);
                } else {
                    out.push(0);
                }
            },
        }
        assert(out@ =~= encode_value(self@));
        out
    }

    /// The value that the byte record `bytes` holds. The record has to be
    /// exactly one value: a known discriminant, then a payload of the width of
    /// its kind, and nothing behind it.
    pub fn from_bytes(bytes: Vec<u8>) -> (r: Result<Val, FormatError>)
        ensures
            match r {
                Ok(v) => decode_value(bytes@) == Ok::<ValView, FormatError>(v@),
                Err(e) => decode_value(bytes@) == Err::<ValView, FormatError>(e),
            },
    {
        let n = bytes.len();
        if n == 0 {
            return Err(FormatError::Truncated);
        }
        let tag = bytes[0];
        if tag == TAG_NOTHING {
            if n == 1 {
                Ok(Val::Nothing)
            } else {
                Err(FormatError::TrailingBytes)
            }
        } else if tag == TAG_NUM {
            if n < 9 {
                Err(FormatError::Truncated)
            } else if n > 9 {
                Err(FormatError::WrongWidth)
            } else {
                Ok(Val::Num(read_i64_be(&bytes, 1)))
            }
        } else if tag == TAG_TXT {
            let payload = copy_range(&bytes, 1, n);
            match string_from_utf8(payload) {
                Some(s) => {
                    proof {
                        encode_utf8_decode_utf8(s@);
                    }
                    Ok(Val::Txt(s))
                },
                None => Err(FormatError::InvalidUtf8),
            }
        } else if tag == TAG_BOOL {
            if n < 2 {
                Err(FormatError::Truncated)
            } else if n > 2 {
                Err(FormatError::TrailingBytes)
            } else if bytes[1] == 0 {
                Ok(Val::Bool(false))
            } else if bytes[1] == 1 {
                Ok(Val::Bool(true))
            } else {
                Err(FormatError::InvalidBool)
            }
        } else {
            Err(FormatError::UnknownDiscriminant)
        }
    }
}

/// What can be stored as the value of a node.
pub trait Wrappable: Sized {
    /// The value that `self` becomes.
    spec fn wrapped(self) -> ValView;

    /// Turns `self` into a value.
    fn wrap(self) -> (v: Val)
        ensures
            v@ == self.wrapped(),
    ;
}

impl Wrappable for i64 {
    open spec fn wrapped(self) -> ValView {
        ValView::Num(self)
    }

    fn wrap(self) -> (v: Val) {
        Val::Num(self)
    }
}

impl Wrappable for String {
    open spec fn wrapped(self) -> ValView {
        ValView::Txt(self@)
    }

    fn wrap(self) -> (v: Val) {
        Val::Txt(self)
    }
}

impl Wrappable for &str {
    open spec fn wrapped(self) -> ValView {
        ValView::Txt(self@)
    }

    fn wrap(self) -> (v: Val) {
        Val::Txt(self.to_owned())
    }
}

impl Wrappable for bool {
    open spec fn wrapped(self) -> ValView {
        ValView::Bool(self)
    }

    fn wrap(self) -> (v: Val) {
        Val::Bool(self)
    }
}

impl Wrappable for () {
    open spec fn wrapped(self) -> ValView {
        ValView::Nothing
    }

    fn wrap(self) -> (v: Val) {
        Val::Nothing
    }
}

impl Wrappable for Val {
    open spec fn wrapped(self) -> ValView {
        self@
    }

    fn wrap(self) -> (v: Val) {
        self
    }
}

} // verus!
