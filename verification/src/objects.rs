//! The typed object tree of a PDF file: a sum type over booleans, numbers,
//! strings, names, arrays, dictionaries, streams, the null object and
//! indirect references, together with its mathematical model.

use vstd::prelude::*;

use crate::error::Error;

verus! {

broadcast use vstd::std_specs::vec::axiom_vec_index_decreases;

/// An indirect reference: a pair of object number and generation number with
/// structural equality. It identifies an indirect object globally within the
/// file.
#[derive(Clone, Copy, Debug, Hash, PartialEq, Eq, Structural)]
pub struct IndirectRef {
    pub number: u32,
    pub generation: u16,
}

/// A PDF object. A dictionary is a list of name-object pairs in which a later
/// entry for the same key shadows an earlier one; its order is not otherwise
/// observable. A real number keeps the bytes of its numeric token. A stream
/// pairs its descriptor dictionary with its decoded payload.
#[derive(Debug, PartialEq)]
pub enum Object {
    Boolean(bool),
    Integer(i64),
    Real(Vec<u8>),
    String(Vec<u8>),
    Name(Vec<u8>),
    Array(Vec<Object>),
    Dictionary(Vec<(Vec<u8>, Object)>),
    Stream(Box<Object>, Vec<u8>),
    Null,
    Indirect(IndirectRef),
}

/// The mathematical shadow of [`Object`], with byte payloads as sequences.
pub enum SpecObject {
    Boolean(bool),
    Integer(i64),
    Real(Seq<u8>),
    String(Seq<u8>),
    Name(Seq<u8>),
    Array(Seq<SpecObject>),
    Dictionary(Seq<(Seq<u8>, SpecObject)>),
    Stream(Box<SpecObject>, Seq<u8>),
    Null,
    Indirect(IndirectRef),
}

/// The model of an object: the same tree over sequences.
pub open spec fn obj_view(o: Object) -> SpecObject
    decreases o, 1int, 0int,
{
    match o {
        Object::Boolean(b) => SpecObject::Boolean(b),
        Object::Integer(i) => SpecObject::Integer(i),
        Object::Real(t) => SpecObject::Real(t@),
        Object::String(s) => SpecObject::String(s@),
        Object::Name(n) => SpecObject::Name(n@),
        Object::Array(v) => SpecObject::Array(arr_view(v, v@.len() as int)),
        Object::Dictionary(v) => SpecObject::Dictionary(dict_view(v, v@.len() as int)),
        Object::Stream(d, b) => SpecObject::Stream(Box::new(obj_view(*d)), b@),
        Object::Null => SpecObject::Null,
        Object::Indirect(r) => SpecObject::Indirect(r),
    }
}

/// The models of the first `n` elements of an array, in order.
pub open spec fn arr_view(v: Vec<Object>, n: int) -> Seq<SpecObject>
    decreases v, 0int, n,
    via arr_view_decreases
{
    if n <= 0 || n > v@.len() {
        Seq::empty()
    } else {
        arr_view(v, n - 1).push(obj_view(v[n - 1]))
    }
}

#[via_fn]
proof fn arr_view_decreases(v: Vec<Object>, n: int) {
    if 0 < n <= v@.len() {
        vstd::std_specs::vec::axiom_vec_index_decreases(v, n - 1);
    }
}

/// The models of the first `n` entries of a dictionary, in order.
pub open spec fn dict_view(v: Vec<(Vec<u8>, Object)>, n: int) -> Seq<(Seq<u8>, SpecObject)>
    decreases v, 0int, n,
    via dict_view_decreases
{
    if n <= 0 || n > v@.len() {
        Seq::empty()
    } else {
        dict_view(v, n - 1).push((v[n - 1].0@, obj_view(v[n - 1].1)))
    }
}

#[via_fn]
proof fn dict_view_decreases(v: Vec<(Vec<u8>, Object)>, n: int) {
    if 0 < n <= v@.len() {
        vstd::std_specs::vec::axiom_vec_index_decreases(v, n - 1);
    }
}

/// Where each element of an array's model comes from.
pub proof fn lemma_arr_view(v: Vec<Object>, n: int)
    requires
        0 <= n <= v@.len(),
    ensures
        arr_view(v, n).len() == n,
        forall|i: int| 0 <= i < n ==> arr_view(v, n)[i] == obj_view(v@[i]),
    decreases n,
{
    if n > 0 {
        lemma_arr_view(v, n - 1);
    }
}

/// The models of a dictionary's entries, as a function of the entry list.
pub open spec fn dict_pairs_view(v: Seq<(Vec<u8>, Object)>) -> Seq<(Seq<u8>, SpecObject)> {
    Seq::new(v.len(), |i: int| (v[i].0@, obj_view(v[i].1)))
}

/// Where each entry of a dictionary's model comes from.
pub proof fn lemma_dict_view(v: Vec<(Vec<u8>, Object)>, n: int)
    requires
        0 <= n <= v@.len(),
    ensures
        dict_view(v, n).len() == n,
        forall|i: int| 0 <= i < n ==> dict_view(v, n)[i] == (v@[i].0@, obj_view(v@[i].1)),
    decreases n,
{
    if n > 0 {
        lemma_dict_view(v, n - 1);
    }
}

impl View for Object {
    type V = SpecObject;

    open spec fn view(&self) -> SpecObject {
        obj_view(*self)
    }
}

/// The value under a key in a dictionary's entry list: the last entry with
/// that name wins, as a later insertion shadows an earlier one.
pub open spec fn spec_dict_lookup(
    entries: Seq<(Seq<u8>, SpecObject)>,
    name: Seq<u8>,
) -> Option<SpecObject>
    decreases entries.len(),
{
    if entries.len() == 0 {
        None
    } else if entries.last().0 == name {
        Some(entries.last().1)
    } else {
        spec_dict_lookup(entries.drop_last(), name)
    }
}

impl Object {
    /// The boolean a Boolean object holds; any other variant is a mismatch.
    pub fn as_bool(&self) -> (r: Result<bool, Error>)
        ensures
            match r {
                Ok(b) => self@ == SpecObject::Boolean(b),
                Err(e) => !(self@ is Boolean) && e@ is Syntax,
            },
    {
        if let Object::Boolean(b) = self {
            Ok(*b)
        } else {
            Err(Error::Syntax("expected a boolean object"))
        }
    }

    /// The integer an Integer object holds; any other variant is a mismatch.
    pub fn as_int(&self) -> (r: Result<i64, Error>)
        ensures
            match r {
                Ok(i) => self@ == SpecObject::Integer(i),
                Err(e) => !(self@ is Integer) && e@ is Syntax,
            },
    {
        if let Object::Integer(i) = self {
            Ok(*i)
        } else {
            Err(Error::Syntax("expected an integer object"))
        }
    }

    /// The numeric text a Real object holds; any other variant is a mismatch.
    pub fn as_real(&self) -> (r: Result<&Vec<u8>, Error>)
        ensures
            match r {
                Ok(t) => self@ == SpecObject::Real(t@),
                Err(e) => !(self@ is Real) && e@ is Syntax,
            },
    {
        if let Object::Real(t) = self {
            Ok(t)
        } else {
            Err(Error::Syntax("expected a real object"))
        }
    }

    /// The bytes a String object holds; any other variant is a mismatch.
    pub fn as_string(&self) -> (r: Result<&Vec<u8>, Error>)
        ensures
            match r {
                Ok(s) => self@ == SpecObject::String(s@),
                Err(e) => !(self@ is String) && e@ is Syntax,
            },
    {
        if let Object::String(s) = self {
            Ok(s)
        } else {
            Err(Error::Syntax("expected a string object"))
        }
    }

    /// The bytes a Name object holds; any other variant is a mismatch.
    pub fn as_name(&self) -> (r: Result<&Vec<u8>, Error>)
        ensures
            match r {
                Ok(n) => self@ == SpecObject::Name(n@),
                Err(e) => !(self@ is Name) && e@ is Syntax,
            },
    {
        if let Object::Name(n) = self {
            Ok(n)
        } else {
            Err(Error::Syntax("expected a name object"))
        }
    }

    /// The elements an Array object holds; any other variant is a mismatch.
    pub fn as_array(&self) -> (r: Result<&Vec<Object>, Error>)
        ensures
            match r {
                Ok(v) => self@ matches SpecObject::Array(es) && es.len() == v@.len()
                    && (forall|i: int| 0 <= i < v@.len() ==> es[i] == v@[i]@),
                Err(e) => !(self@ is Array) && e@ is Syntax,
            },
    {
        if let Object::Array(v) = self {
            proof {
                lemma_arr_view(*v, v@.len() as int);
            }
            Ok(v)
        } else {
            Err(Error::Syntax("expected an array object"))
        }
    }

    /// The entry list a Dictionary object holds; any other variant is a
    /// mismatch.
    pub fn as_dict(&self) -> (r: Result<&Vec<(Vec<u8>, Object)>, Error>)
        ensures
            match r {
                Ok(v) => self@ matches SpecObject::Dictionary(es) && es.len() == v@.len()
                    && forall|i: int| 0 <= i < v@.len() ==> es[i] == (v@[i].0@, v@[i].1@),
                Err(e) => !(self@ is Dictionary) && e@ is Syntax,
            },
    {
        if let Object::Dictionary(v) = self {
            proof {
                lemma_dict_view(*v, v@.len() as int);
            }
            Ok(v)
        } else {
            Err(Error::Syntax("expected a dictionary object"))
        }
    }

    /// The descriptor entries and decoded payload a Stream object holds. The
    /// descriptor must be a dictionary; anything else is a mismatch.
    pub fn as_stream(&self) -> (r: Result<(&Vec<(Vec<u8>, Object)>, &Vec<u8>), Error>)
        ensures
            match r {
                Ok((v, b)) => self@ matches SpecObject::Stream(d, bytes) && {
                    &&& bytes == b@
                    &&& *d matches SpecObject::Dictionary(es) && es.len() == v@.len()
                        && (forall|i: int| 0 <= i < v@.len() ==> es[i] == (v@[i].0@, v@[i].1@))
                },
                Err(e) => e@ is Syntax && (self@ matches SpecObject::Stream(d, bytes)
                    ==> !(*d is Dictionary)),
            },
    {
        if let Object::Stream(d, bytes) = self {
            match d.as_dict() {
                Ok(v) => Ok((v, bytes)),
                Err(e) => Err(e),
            }
        } else {
            Err(Error::Syntax("expected a stream object"))
        }
    }

    /// Succeeds exactly on the Null object.
    pub fn as_null(&self) -> (r: Result<(), Error>)
        ensures
            match r {
                Ok(u) => self@ is Null,
                Err(e) => !(self@ is Null) && e@ is Syntax,
            },
    {
        if let Object::Null = self {
            Ok(())
        } else {
            Err(Error::Syntax("expected the null object"))
        }
    }

    /// The reference an Indirect object holds; any other variant is a
    /// mismatch.
    pub fn as_indirect(&self) -> (r: Result<IndirectRef, Error>)
        ensures
            match r {
                Ok(ind) => self@ == SpecObject::Indirect(ind),
                Err(e) => !(self@ is Indirect) && e@ is Syntax,
            },
    {
        if let Object::Indirect(ind) = self {
            Ok(*ind)
        } else {
            Err(Error::Syntax("expected an indirect reference"))
        }
    }

    /// The value under a key of a dictionary: the last entry with that name.
    /// `None` on a missing key or on anything that is not a dictionary.
    pub fn lookup<'a>(&'a self, name: &[u8]) -> (r: Option<&'a Object>)
        ensures
            match r {
                Some(o) => {
                    &&& self@ matches SpecObject::Dictionary(es)
                    &&& spec_dict_lookup(es, name@) == Some(o@)
                },
                None => self@ matches SpecObject::Dictionary(es)
                    ==> spec_dict_lookup(es, name@) is None,
            },
    {
        let entries = match self {
            Object::Dictionary(entries) => entries,
            _ => {
                return None;
            },
        };
        let ghost es = self@->Dictionary_0;
        let mut k = entries.len();
        proof {
            lemma_dict_view(*entries, entries@.len() as int);
            assert(es.take(es.len() as int) =~= es);
        }
        loop
            invariant
                0 <= k <= entries@.len(),
                es == self@->Dictionary_0,
                self@ matches SpecObject::Dictionary(es2) && es2 == es,
                es.len() == entries@.len(),
                forall|i: int| 0 <= i < es.len() ==> es[i] == (entries@[i].0@, entries@[i].1@),
                spec_dict_lookup(es, name@) == spec_dict_lookup(es.take(k as int), name@),
            decreases k,
        {
            if k == 0 {
                proof {
                    assert(es.take(0).len() == 0);
                }
                return None;
            }
            k = k - 1;
            proof {
                assert(es.take(k + 1).last() == es[k as int]);
                assert(es.take(k + 1).drop_last() =~= es.take(k as int));
            }
            if crate::scan::bytes_eq(entries[k].0.as_slice(), name) {
                return Some(&entries[k].1);
            }
        }
    }
}

/// A fresh copy of a byte vector.
pub fn copy_bytes(v: &Vec<u8>) -> (r: Vec<u8>)
    ensures
        r@ == v@,
{
    vstd::slice::slice_to_vec(v.as_slice())
}

impl Object {
    /// What iterating over the object visits, as fresh copies: the elements
    /// of an array in order, nothing for the null object, and any other
    /// object once, by itself.
    pub fn items(&self) -> (r: Vec<Object>)
        ensures
            match self@ {
                SpecObject::Array(es) => r@.len() == es.len() && (forall|i: int|
                    0 <= i < es.len() ==> (#[trigger] r@[i])@ == es[i]),
                SpecObject::Null => r@.len() == 0,
                _ => r@.len() == 1 && r@[0]@ == self@,
            },
    {
        match self {
            Object::Array(v) => {
                let ghost es = self@->Array_0;
                proof {
                    lemma_arr_view(*v, v@.len() as int);
                }
                let mut out: Vec<Object> = Vec::new();
                let n = v.len();
                let mut i: usize = 0;
                while i < n
                    invariant
                        0 <= i <= n,
                        n == v@.len(),
                        self is Array && self->Array_0 == *v,
                        es == self@->Array_0,
                        es.len() == n,
                        forall|j: int| 0 <= j < n ==> es[j] == obj_view(#[trigger] v@[j]),
                        out@.len() == i,
                        forall|j: int| 0 <= j < i ==> (#[trigger] out@[j])@ == es[j],
                    decreases n - i,
                {
                    let e = v[i].duplicate();
                    out.push(e);
                    i = i + 1;
                }
                out
            },
            Object::Null => Vec::new(),
            other => {
                let mut out: Vec<Object> = Vec::new();
                out.push(other.duplicate());
                out
            },
        }
    }

    /// A fresh object with the same model: a deep copy that shares nothing
    /// with the original.
    pub fn duplicate(&self) -> (r: Object)
        ensures
            r@ == self@,
        decreases *self,
    {
        match self {
            Object::Boolean(b) => Object::Boolean(*b),
            Object::Integer(i) => Object::Integer(*i),
            Object::Real(t) => Object::Real(copy_bytes(t)),
            Object::String(s) => Object::String(copy_bytes(s)),
            Object::Name(n) => Object::Name(copy_bytes(n)),
            Object::Array(v) => {
                let mut out: Vec<Object> = Vec::new();
                let n = v.len();
                let mut i: usize = 0;
                while i < n
                    invariant
                        0 <= i <= n,
                        n == v@.len(),
                        self is Array && self->Array_0 == *v,
                        out@.len() == i,
                        forall|j: int| 0 <= j < i ==> obj_view(#[trigger] out@[j])
                            == obj_view(v@[j]),
                    decreases n - i,
                {
                    proof {
                        vstd::std_specs::vec::axiom_vec_index_decreases(*v, i as int);
                    }
                    let e = v[i].duplicate();
                    out.push(e);
                    i = i + 1;
                }
                proof {
                    lemma_arr_view(*v, n as int);
                    lemma_arr_view(out, n as int);
                    assert(arr_view(out, n as int) =~= arr_view(*v, n as int));
                }
                Object::Array(out)
            },
            Object::Dictionary(v) => {
                let mut out: Vec<(Vec<u8>, Object)> = Vec::new();
                let n = v.len();
                let mut i: usize = 0;
                while i < n
                    invariant
                        0 <= i <= n,
                        n == v@.len(),
                        self is Dictionary && self->Dictionary_0 == *v,
                        out@.len() == i,
                        forall|j: int| 0 <= j < i ==> (#[trigger] out@[j]).0@ == v@[j].0@
                            && obj_view(out@[j].1) == obj_view(v@[j].1),
                    decreases n - i,
                {
                    proof {
                        vstd::std_specs::vec::axiom_vec_index_decreases(*v, i as int);
                    }
                    let key = copy_bytes(&v[i].0);
                    let val = v[i].1.duplicate();
                    out.push((key, val));
                    i = i + 1;
                }
                proof {
                    lemma_dict_view(*v, n as int);
                    lemma_dict_view(out, n as int);
                    assert(dict_view(out, n as int) =~= dict_view(*v, n as int));
                }
                Object::Dictionary(out)
            },
            Object::Stream(d, b) => Object::Stream(Box::new(d.duplicate()), copy_bytes(b)),
            Object::Null => Object::Null,
            Object::Indirect(r) => Object::Indirect(*r),
        }
    }
}

} // verus!
