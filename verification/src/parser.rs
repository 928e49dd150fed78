//! The object parser: a stack machine that assembles tokens into objects,
//! including arrays, dictionaries, streams with their filters applied, and
//! the `N G R` / `N G obj` compositions, together with its mathematical
//! model.

use vstd::prelude::*;

use crate::error::{Error, SpecError};
use crate::flate::{flate_decode, zlib_inflate};
use crate::grammar::{SpecToken, spec_parse_token, lemma_token_progress};
use crate::keywords::{
    kw_true, kw_false, kw_null, kw_r, kw_obj, kw_filter_name, kw_flate_decode,
    true_keyword, false_keyword, null_keyword, r_keyword, obj_keyword, filter_key,
    flate_decode_name,
};
use crate::objects::{
    IndirectRef, Object, SpecObject, obj_view, arr_view, dict_view, dict_pairs_view,
    spec_dict_lookup, lemma_arr_view, lemma_dict_view, copy_bytes,
};
use crate::scan::bytes_eq;
use crate::tokens::{Token, parse_token};

verus! {

/// An entry of the parse stack: a finished object, or the marker left where
/// an array or dictionary was opened.
pub enum StackEntry {
    Obj(Object),
    ArrayMark,
    DictMark,
}

/// The mathematical shadow of a stack entry.
pub enum SpecEntry {
    Obj(SpecObject),
    ArrayMark,
    DictMark,
}

/// The model of a stack entry.
pub open spec fn entry_view(e: StackEntry) -> SpecEntry {
    match e {
        StackEntry::Obj(o) => SpecEntry::Obj(obj_view(o)),
        StackEntry::ArrayMark => SpecEntry::ArrayMark,
        StackEntry::DictMark => SpecEntry::DictMark,
    }
}

/// The model of the whole parse stack.
pub open spec fn stack_view(v: Seq<StackEntry>) -> Seq<SpecEntry> {
    Seq::new(v.len(), |i: int| entry_view(v[i]))
}

/// The model of a list of filter names.
pub open spec fn names_view(v: Seq<Vec<u8>>) -> Seq<Seq<u8>> {
    Seq::new(v.len(), |i: int| v[i]@)
}

// ---------------------------------------------------------------------------
// Stack operations, at the specification level
// ---------------------------------------------------------------------------

/// Closing an array: pop back to the most recent array marker, collecting the
/// objects above it in order into `acc`. A dictionary marker or an exhausted
/// stack on the way is malformed.
pub open spec fn spec_close_array(
    stack: Seq<SpecEntry>,
    acc: Seq<SpecObject>,
) -> Option<Seq<SpecEntry>>
    decreases stack.len(),
{
    if stack.len() == 0 {
        None
    } else {
        match stack.last() {
            SpecEntry::Obj(o) => spec_close_array(stack.drop_last(), seq![o] + acc),
            SpecEntry::ArrayMark => Some(
                stack.drop_last().push(SpecEntry::Obj(SpecObject::Array(acc))),
            ),
            SpecEntry::DictMark => None,
        }
    }
}

/// Some pair of `ps` carries the key.
pub open spec fn has_key(ps: Seq<(Seq<u8>, SpecObject)>, key: Seq<u8>) -> bool
    decreases ps.len(),
{
    ps.len() > 0 && (ps[0].0 == key || has_key(ps.skip(1), key))
}

/// Grouping a dictionary's popped contents into key-value pairs: names at the
/// even positions, any object after each. A later pair shadows an earlier one
/// with the same key, and the shadowed pair is dropped, so the entry list is
/// a mapping. An odd count or a key that is no name is malformed.
pub open spec fn spec_pairs(objs: Seq<SpecObject>) -> Option<Seq<(Seq<u8>, SpecObject)>>
    decreases objs.len(),
{
    if objs.len() == 0 {
        Some(Seq::empty())
    } else if objs.len() == 1 {
        None
    } else {
        match objs[0] {
            SpecObject::Name(n) => match spec_pairs(objs.skip(2)) {
                Some(ps) => Some(
                    if has_key(ps, n) {
                        ps
                    } else {
                        seq![(n, objs[1])] + ps
                    },
                ),
                None => None,
            },
            _ => None,
        }
    }
}

/// `ps` with every pair of the given key removed.
spec fn remove_key(ps: Seq<(Seq<u8>, SpecObject)>, key: Seq<u8>) -> Seq<(Seq<u8>, SpecObject)>
    decreases ps.len(),
{
    if ps.len() == 0 {
        Seq::empty()
    } else if ps[0].0 == key {
        remove_key(ps.skip(1), key)
    } else {
        seq![ps[0]] + remove_key(ps.skip(1), key)
    }
}

/// `a` with every pair whose key occurs in `ps` removed.
spec fn drop_keys_in(
    a: Seq<(Seq<u8>, SpecObject)>,
    ps: Seq<(Seq<u8>, SpecObject)>,
) -> Seq<(Seq<u8>, SpecObject)>
    decreases a.len(),
{
    if a.len() == 0 {
        Seq::empty()
    } else if has_key(ps, a[0].0) {
        drop_keys_in(a.skip(1), ps)
    } else {
        seq![a[0]] + drop_keys_in(a.skip(1), ps)
    }
}

/// A key is carried exactly when some index carries it.
proof fn lemma_has_key_iff(ps: Seq<(Seq<u8>, SpecObject)>, key: Seq<u8>)
    ensures
        has_key(ps, key) <==> exists|j: int| 0 <= j < ps.len() && (#[trigger] ps[j]).0 == key,
    decreases ps.len(),
{
    if ps.len() > 0 {
        lemma_has_key_iff(ps.skip(1), key);
        if has_key(ps.skip(1), key) {
            let j = choose|j: int| 0 <= j < ps.skip(1).len() && (#[trigger] ps.skip(1)[j]).0
                == key;
            assert(ps[j + 1] == ps.skip(1)[j]);
        }
        if exists|j: int| 0 <= j < ps.len() && (#[trigger] ps[j]).0 == key {
            let j = choose|j: int| 0 <= j < ps.len() && (#[trigger] ps[j]).0 == key;
            if j > 0 {
                assert(ps.skip(1)[j - 1] == ps[j]);
            }
        }
    }
}

/// With nothing banned, nothing is dropped.
proof fn lemma_drop_keys_empty(a: Seq<(Seq<u8>, SpecObject)>)
    ensures
        drop_keys_in(a, Seq::empty()) == a,
    decreases a.len(),
{
    if a.len() > 0 {
        lemma_drop_keys_empty(a.skip(1));
        assert(seq![a[0]] + a.skip(1) =~= a);
    }
}

/// Dropping distributes over appending one pair.
proof fn lemma_drop_keys_push(
    a: Seq<(Seq<u8>, SpecObject)>,
    p: (Seq<u8>, SpecObject),
    ps: Seq<(Seq<u8>, SpecObject)>,
)
    ensures
        drop_keys_in(a.push(p), ps) == if has_key(ps, p.0) {
            drop_keys_in(a, ps)
        } else {
            drop_keys_in(a, ps).push(p)
        },
    decreases a.len(),
{
    reveal_with_fuel(drop_keys_in, 3);
    if a.len() == 0 {
        assert(a.push(p)[0] == p);
        assert(a.push(p).skip(1) =~= Seq::<(Seq<u8>, SpecObject)>::empty());
        if !has_key(ps, p.0) {
            assert(seq![p] + Seq::<(Seq<u8>, SpecObject)>::empty()
                =~= drop_keys_in(a, ps).push(p));
        }
    } else {
        assert(a.push(p)[0] == a[0]);
        assert(a.push(p).skip(1) =~= a.skip(1).push(p));
        lemma_drop_keys_push(a.skip(1), p, ps);
        if !has_key(ps, a[0].0) && !has_key(ps, p.0) {
            assert(seq![a[0]] + drop_keys_in(a.skip(1), ps).push(p)
                =~= (seq![a[0]] + drop_keys_in(a.skip(1), ps)).push(p));
        }
    }
}

/// Removing a banned key first changes nothing: the drop removes it too.
proof fn lemma_drop_keys_remove(
    a: Seq<(Seq<u8>, SpecObject)>,
    key: Seq<u8>,
    ps: Seq<(Seq<u8>, SpecObject)>,
)
    requires
        has_key(ps, key),
    ensures
        drop_keys_in(remove_key(a, key), ps) == drop_keys_in(a, ps),
    decreases a.len(),
{
    if a.len() > 0 {
        lemma_drop_keys_remove(a.skip(1), key, ps);
        if a[0].0 != key {
            let c = seq![a[0]] + remove_key(a.skip(1), key);
            assert(c[0] == a[0]);
            assert(c.skip(1) =~= remove_key(a.skip(1), key));
        }
    }
}

/// A ban on a key that `a` does not carry changes nothing.
proof fn lemma_drop_keys_cons_absent(
    a: Seq<(Seq<u8>, SpecObject)>,
    p: (Seq<u8>, SpecObject),
    ps: Seq<(Seq<u8>, SpecObject)>,
)
    requires
        !has_key(a, p.0),
    ensures
        drop_keys_in(a, seq![p] + ps) == drop_keys_in(a, ps),
    decreases a.len(),
{
    if a.len() > 0 {
        assert((seq![p] + ps)[0] == p);
        assert((seq![p] + ps).skip(1) =~= ps);
        assert(a[0].0 != p.0);
        lemma_drop_keys_cons_absent(a.skip(1), p, ps);
    }
}

/// After a removal, the key is gone.
proof fn lemma_remove_key_absent(ps: Seq<(Seq<u8>, SpecObject)>, key: Seq<u8>)
    ensures
        !has_key(remove_key(ps, key), key),
    decreases ps.len(),
{
    if ps.len() > 0 {
        lemma_remove_key_absent(ps.skip(1), key);
        if ps[0].0 != key {
            let c = seq![ps[0]] + remove_key(ps.skip(1), key);
            assert(c[0] == ps[0]);
            assert(c.skip(1) =~= remove_key(ps.skip(1), key));
        }
    }
}

/// Removing a key that is not carried changes nothing.
proof fn lemma_remove_key_noop(ps: Seq<(Seq<u8>, SpecObject)>, key: Seq<u8>)
    requires
        !has_key(ps, key),
    ensures
        remove_key(ps, key) == ps,
    decreases ps.len(),
{
    if ps.len() > 0 {
        lemma_remove_key_noop(ps.skip(1), key);
        assert(seq![ps[0]] + ps.skip(1) =~= ps);
    }
}

/// When exactly one pair carries the key, removing the key removes that pair.
proof fn lemma_remove_key_at(ps: Seq<(Seq<u8>, SpecObject)>, key: Seq<u8>, idx: int)
    requires
        0 <= idx < ps.len(),
        ps[idx].0 == key,
        forall|j: int| 0 <= j < ps.len() && j != idx ==> (#[trigger] ps[j]).0 != key,
    ensures
        remove_key(ps, key) == ps.remove(idx),
    decreases ps.len(),
{
    if idx == 0 {
        lemma_has_key_iff(ps.skip(1), key);
        assert forall|j: int| 0 <= j < ps.skip(1).len() implies (#[trigger] ps.skip(1)[j]).0
            != key by {
            assert(ps.skip(1)[j] == ps[j + 1]);
        }
        lemma_remove_key_noop(ps.skip(1), key);
        assert(ps.remove(0) =~= ps.skip(1));
    } else {
        assert forall|j: int| 0 <= j < ps.skip(1).len() && j != idx - 1 implies (
        #[trigger] ps.skip(1)[j]).0 != key by {
            assert(ps.skip(1)[j] == ps[j + 1]);
        }
        assert(ps.skip(1)[idx - 1] == ps[idx]);
        lemma_remove_key_at(ps.skip(1), key, idx - 1);
        assert(seq![ps[0]] + ps.skip(1).remove(idx - 1) =~= ps.remove(idx));
    }
}

/// Closing a dictionary: pop back to the most recent dictionary marker, then
/// group the collected objects into pairs.
pub open spec fn spec_close_dict(
    stack: Seq<SpecEntry>,
    acc: Seq<SpecObject>,
) -> Option<Seq<SpecEntry>>
    decreases stack.len(),
{
    if stack.len() == 0 {
        None
    } else {
        match stack.last() {
            SpecEntry::Obj(o) => spec_close_dict(stack.drop_last(), seq![o] + acc),
            SpecEntry::DictMark => match spec_pairs(acc) {
                Some(ps) => Some(
                    stack.drop_last().push(SpecEntry::Obj(SpecObject::Dictionary(ps))),
                ),
                None => None,
            },
            SpecEntry::ArrayMark => None,
        }
    }
}

/// Taking an indirect reference off the stack: the two topmost entries must
/// be integers in range, generation above number.
pub open spec fn spec_take_ref(stack: Seq<SpecEntry>) -> Option<(IndirectRef, Seq<SpecEntry>)> {
    if stack.len() >= 2 {
        match (stack[stack.len() - 2], stack[stack.len() - 1]) {
            (SpecEntry::Obj(SpecObject::Integer(num)), SpecEntry::Obj(SpecObject::Integer(gen)))
                => {
                if 0 <= num <= u32::MAX && 0 <= gen <= u16::MAX {
                    Some(
                        (
                            IndirectRef { number: num as u32, generation: gen as u16 },
                            stack.take(stack.len() - 2),
                        ),
                    )
                } else {
                    None
                }
                },
            _ => None,
        }
    } else {
        None
    }
}

// ---------------------------------------------------------------------------
// The filter pipeline, at the specification level
// ---------------------------------------------------------------------------

/// Every element of the list must be a name; the names in order.
pub open spec fn spec_name_list(items: Seq<SpecObject>) -> Result<Seq<Seq<u8>>, SpecError>
    decreases items.len(),
{
    if items.len() == 0 {
        Ok(Seq::empty())
    } else {
        match items[0] {
            SpecObject::Name(n) => match spec_name_list(items.skip(1)) {
                Ok(r) => Ok(seq![n] + r),
                Err(e) => Err(e),
            },
            _ => Err(SpecError::UnknownFilter),
        }
    }
}

/// The filter names a stream dictionary asks for: none when the `Filter`
/// entry is absent or null, one for a single name, each in order for an array
/// of names. Anything else is an unknown filter.
pub open spec fn spec_filter_list(d: Seq<(Seq<u8>, SpecObject)>) -> Result<Seq<Seq<u8>>, SpecError> {
    match spec_dict_lookup(d, kw_filter_name()) {
        None => Ok(Seq::empty()),
        Some(SpecObject::Null) => Ok(Seq::empty()),
        Some(SpecObject::Name(n)) => Ok(seq![n]),
        Some(SpecObject::Array(items)) => spec_name_list(items),
        Some(_) => Err(SpecError::UnknownFilter),
    }
}

/// Applying the named filters left to right. `FlateDecode` inflates zlib
/// data; a failing inflation is a syntax error; any other name is an unknown
/// filter.
pub open spec fn spec_apply_filters(names: Seq<Seq<u8>>, data: Seq<u8>) -> Result<
    Seq<u8>,
    SpecError,
>
    decreases names.len(),
{
    if names.len() == 0 {
        Ok(data)
    } else if names[0] == kw_flate_decode() {
        match zlib_inflate(data) {
            Some(d) => spec_apply_filters(names.skip(1), d),
            None => Err(SpecError::Syntax),
        }
    } else {
        Err(SpecError::UnknownFilter)
    }
}

// ---------------------------------------------------------------------------
// The parse loop, at the specification level
// ---------------------------------------------------------------------------

/// One run of the object parser: tokens are read and dispatched onto the
/// stack until the end keyword arrives, at which point the stack must hold
/// exactly one object. `env` carries the envelope identity that an `obj`
/// keyword recorded.
pub open spec fn spec_obj_loop(
    s: Seq<u8>,
    kw: Seq<u8>,
    stack: Seq<SpecEntry>,
    env: Option<IndirectRef>,
) -> Result<((Option<IndirectRef>, SpecObject), Seq<u8>), SpecError>
    decreases s.len(),
    via spec_obj_loop_decreases
{
    match spec_parse_token(s) {
        Err(e) => Err(e),
        Ok((tok, r)) => match tok {
            SpecToken::Integer(i) => spec_obj_loop(
                r,
                kw,
                stack.push(SpecEntry::Obj(SpecObject::Integer(i))),
                env,
            ),
            SpecToken::Real(t) => spec_obj_loop(
                r,
                kw,
                stack.push(SpecEntry::Obj(SpecObject::Real(t))),
                env,
            ),
            SpecToken::LiteralString(b) => spec_obj_loop(
                r,
                kw,
                stack.push(SpecEntry::Obj(SpecObject::String(b))),
                env,
            ),
            SpecToken::HexadecimalString(b) => spec_obj_loop(
                r,
                kw,
                stack.push(SpecEntry::Obj(SpecObject::String(b))),
                env,
            ),
            SpecToken::Name(n) => spec_obj_loop(
                r,
                kw,
                stack.push(SpecEntry::Obj(SpecObject::Name(n))),
                env,
            ),
            SpecToken::BeginArray => spec_obj_loop(r, kw, stack.push(SpecEntry::ArrayMark), env),
            SpecToken::EndArray => match spec_close_array(stack, Seq::empty()) {
                Some(st) => spec_obj_loop(r, kw, st, env),
                None => Err(SpecError::Syntax),
            },
            SpecToken::BeginDictionary => spec_obj_loop(
                r,
                kw,
                stack.push(SpecEntry::DictMark),
                env,
            ),
            SpecToken::EndDictionary => match spec_close_dict(stack, Seq::empty()) {
                Some(st) => spec_obj_loop(r, kw, st, env),
                None => Err(SpecError::Syntax),
            },
            SpecToken::Stream(body) => {
                if stack.len() >= 1 && stack.last() matches SpecEntry::Obj(
                    SpecObject::Dictionary(d),
                ) {
                    let d = stack.last()->Obj_0->Dictionary_0;
                    match spec_filter_list(d) {
                        Err(e) => Err(e),
                        Ok(names) => match spec_apply_filters(names, body) {
                            Err(e) => Err(e),
                            Ok(decoded) => spec_obj_loop(
                                r,
                                kw,
                                stack.drop_last().push(
                                    SpecEntry::Obj(
                                        SpecObject::Stream(
                                            Box::new(SpecObject::Dictionary(d)),
                                            decoded,
                                        ),
                                    ),
                                ),
                                env,
                            ),
                        },
                    }
                } else {
                    Err(SpecError::Syntax)
                }
            },
            SpecToken::Keyword(k) => {
                if k == kw {
                    if stack.len() == 1 && stack[0] is Obj {
                        Ok(((env, stack[0]->Obj_0), r))
                    } else {
                        Err(SpecError::Syntax)
                    }
                } else if k == kw_true() {
                    spec_obj_loop(
                        r,
                        kw,
                        stack.push(SpecEntry::Obj(SpecObject::Boolean(true))),
                        env,
                    )
                } else if k == kw_false() {
                    spec_obj_loop(
                        r,
                        kw,
                        stack.push(SpecEntry::Obj(SpecObject::Boolean(false))),
                        env,
                    )
                } else if k == kw_null() {
                    spec_obj_loop(r, kw, stack.push(SpecEntry::Obj(SpecObject::Null)), env)
                } else if k == kw_r() {
                    match spec_take_ref(stack) {
                        Some((ind, st)) => spec_obj_loop(
                            r,
                            kw,
                            st.push(SpecEntry::Obj(SpecObject::Indirect(ind))),
                            env,
                        ),
                        None => Err(SpecError::Syntax),
                    }
                } else if k == kw_obj() {
                    match spec_take_ref(stack) {
                        Some((ind, st)) => spec_obj_loop(r, kw, st, Some(ind)),
                        None => Err(SpecError::Syntax),
                    }
                } else {
                    Err(SpecError::Syntax)
                }
            },
        },
    }
}

#[via_fn]
proof fn spec_obj_loop_decreases(
    s: Seq<u8>,
    kw: Seq<u8>,
    stack: Seq<SpecEntry>,
    env: Option<IndirectRef>,
) {
    lemma_token_progress(s);
}

/// One object parsed out of the input, ended by the given keyword.
pub open spec fn spec_parse_object_until(s: Seq<u8>, kw: Seq<u8>) -> Result<
    ((Option<IndirectRef>, SpecObject), Seq<u8>),
    SpecError,
> {
    spec_obj_loop(s, kw, Seq::empty(), None)
}

// ---------------------------------------------------------------------------
// The executable stack machine
// ---------------------------------------------------------------------------

/// Pushing onto the stack pushes onto its model.
proof fn lemma_stack_push(v: Seq<StackEntry>, e: StackEntry)
    ensures
        stack_view(v.push(e)) == stack_view(v).push(entry_view(e)),
{
    assert(stack_view(v.push(e)) =~= stack_view(v).push(entry_view(e)));
}

/// Popping from the stack drops the last entry of its model.
proof fn lemma_stack_drop(v: Seq<StackEntry>)
    requires
        v.len() > 0,
    ensures
        stack_view(v.drop_last()) == stack_view(v).drop_last(),
        stack_view(v).last() == entry_view(v.last()),
{
    assert(stack_view(v.drop_last()) =~= stack_view(v).drop_last());
}

/// Pops the elements above the most recent array marker, collects them in
/// order into an array object, and pushes it in the marker's place.
#[verifier::loop_isolation(false)]
fn close_array(stack: &mut Vec<StackEntry>) -> (r: Result<(), Error>)
    ensures
        match r {
            Ok(u) => spec_close_array(stack_view(old(stack)@), Seq::empty())
                == Some(stack_view(final(stack)@)),
            Err(e) => spec_close_array(stack_view(old(stack)@), Seq::empty()) is None
                && e@ is Syntax,
        },
{
    let mut tmp: Vec<Object> = Vec::new();
    let ghost mut acc: Seq<SpecObject> = Seq::empty();
    loop
        invariant
            spec_close_array(stack_view(old(stack)@), Seq::empty())
                == spec_close_array(stack_view(stack@), acc),
            acc.len() == tmp@.len(),
            forall|j: int| 0 <= j < tmp@.len() ==> acc[j] == obj_view(
                #[trigger] tmp@[tmp@.len() - 1 - j],
            ),
        decreases stack@.len(),
    {
        let ghost stack0 = stack@;
        proof {
            if stack0.len() > 0 {
                lemma_stack_drop(stack0);
            } else {
                assert(stack_view(stack0).len() == 0);
            }
        }
        match stack.pop() {
            None => {
                return Err(Error::Syntax("could not find the start of an array"));
            },
            Some(StackEntry::DictMark) => {
                return Err(Error::Syntax("a dictionary opened inside an array"));
            },
            Some(StackEntry::Obj(o)) => {
                let ghost tmp0 = tmp@;
                let ghost acc0 = acc;
                proof {
                    acc = seq![obj_view(o)] + acc;
                }
                tmp.push(o);
                proof {
                    assert forall|j: int| 0 <= j < tmp@.len() implies acc[j] == obj_view(
                        #[trigger] tmp@[tmp@.len() - 1 - j],
                    ) by {
                        if j == 0 {
                            assert(tmp@[tmp@.len() - 1] == o);
                        } else {
                            assert(tmp@[tmp@.len() - 1 - j] == tmp0[tmp0.len() - 1 - (j - 1)]);
                            assert(acc[j] == acc0[j - 1]);
                        }
                    }
                }
            },
            Some(StackEntry::ArrayMark) => {
                // Rebuild the elements in order and push the finished array.
                let mut arr: Vec<Object> = Vec::new();
                let ghost total = acc.len();
                proof {
                    assert forall|j: int| 0 <= j < tmp@.len() implies obj_view(
                        #[trigger] tmp@[j],
                    ) == acc[total - 1 - j] by {
                        assert(acc[total - 1 - j] == obj_view(tmp@[tmp@.len() - 1 - (total - 1
                            - j)]));
                    }
                }
                while tmp.len() > 0
                    invariant
                        acc.len() == total,
                        arr@.len() + tmp@.len() == total,
                        forall|j: int| 0 <= j < arr@.len() ==> obj_view(#[trigger] arr@[j])
                            == acc[j],
                        forall|j: int| 0 <= j < tmp@.len() ==> obj_view(#[trigger] tmp@[j])
                            == acc[total - 1 - j],
                    decreases tmp@.len(),
                {
                    let ghost tmp0 = tmp@;
                    let o = tmp.pop().unwrap();
                    proof {
                        assert(tmp0[tmp0.len() - 1] == o);
                        assert(obj_view(o) == acc[total - 1 - (tmp0.len() - 1)]);
                        assert(obj_view(o) == acc[arr@.len() as int]);
                    }
                    arr.push(o);
                }
                proof {
                    lemma_arr_view(arr, arr@.len() as int);
                    assert(arr_view(arr, arr@.len() as int) =~= acc);
                    lemma_stack_push(stack@, StackEntry::Obj(Object::Array(arr)));
                }
                stack.push(StackEntry::Obj(Object::Array(arr)));
                return Ok(());
            },
        }
    }
}

/// Pops the elements above the most recent dictionary marker, groups them
/// into key-value pairs, and pushes the finished dictionary in the marker's
/// place.
#[verifier::loop_isolation(false)]
fn close_dict(stack: &mut Vec<StackEntry>) -> (r: Result<(), Error>)
    ensures
        match r {
            Ok(u) => spec_close_dict(stack_view(old(stack)@), Seq::empty())
                == Some(stack_view(final(stack)@)),
            Err(e) => spec_close_dict(stack_view(old(stack)@), Seq::empty()) is None
                && e@ is Syntax,
        },
{
    let mut tmp: Vec<Object> = Vec::new();
    let ghost mut acc: Seq<SpecObject> = Seq::empty();
    loop
        invariant
            spec_close_dict(stack_view(old(stack)@), Seq::empty())
                == spec_close_dict(stack_view(stack@), acc),
            acc.len() == tmp@.len(),
            forall|j: int| 0 <= j < tmp@.len() ==> acc[j] == obj_view(
                #[trigger] tmp@[tmp@.len() - 1 - j],
            ),
        decreases stack@.len(),
    {
        let ghost stack0 = stack@;
        proof {
            if stack0.len() > 0 {
                lemma_stack_drop(stack0);
            } else {
                assert(stack_view(stack0).len() == 0);
            }
        }
        match stack.pop() {
            None => {
                return Err(Error::Syntax("could not find the start of a dictionary"));
            },
            Some(StackEntry::ArrayMark) => {
                return Err(Error::Syntax("an array opened inside a dictionary"));
            },
            Some(StackEntry::Obj(o)) => {
                let ghost tmp0 = tmp@;
                let ghost acc0 = acc;
                proof {
                    acc = seq![obj_view(o)] + acc;
                }
                tmp.push(o);
                proof {
                    assert forall|j: int| 0 <= j < tmp@.len() implies acc[j] == obj_view(
                        #[trigger] tmp@[tmp@.len() - 1 - j],
                    ) by {
                        if j == 0 {
                            assert(tmp@[tmp@.len() - 1] == o);
                        } else {
                            assert(tmp@[tmp@.len() - 1 - j] == tmp0[tmp0.len() - 1 - (j - 1)]);
                            assert(acc[j] == acc0[j - 1]);
                        }
                    }
                }
            },
            Some(StackEntry::DictMark) => {
                // Group keys and values in order into the entry list. A later
                // pair shadows an earlier one with the same key; the shadowed
                // pair is dropped, so the entry list stays a mapping.
                let mut entries: Vec<(Vec<u8>, Object)> = Vec::new();
                let ghost total = acc.len();
                let ghost mut rem = acc;
                let ghost mut pairs_done: int = 0;
                let ghost popped_state = stack@;
                proof {
                    assert(acc.skip(0) =~= acc);
                    assert(popped_state =~= stack0.drop_last());
                    assert(dict_pairs_view(entries@) =~= Seq::<(Seq<u8>, SpecObject)>::empty());
                    match spec_pairs(acc) {
                        Some(ps) => {
                            assert(drop_keys_in(dict_pairs_view(entries@), ps) + ps =~= ps);
                        },
                        None => (),
                    }
                }
                loop
                    invariant
                        stack@ == popped_state,
                        0 <= pairs_done,
                        rem == acc.skip(2 * pairs_done),
                        rem.len() == tmp@.len(),
                        2 * pairs_done + tmp@.len() == total == acc.len(),
                        forall|j: int| 0 <= j < tmp@.len() ==> rem[j] == obj_view(
                            #[trigger] tmp@[tmp@.len() - 1 - j],
                        ),
                        forall|i: int, j: int| 0 <= i < j < entries@.len()
                            ==> (#[trigger] entries@[i]).0@ != (#[trigger] entries@[j]).0@,
                        spec_pairs(acc) == match spec_pairs(rem) {
                            Some(ps) => Some(
                                drop_keys_in(dict_pairs_view(entries@), ps) + ps,
                            ),
                            None => None::<Seq<(Seq<u8>, SpecObject)>>,
                        },
                    decreases tmp@.len(),
                {
                    let ghost tmp0 = tmp@;
                    let ghost rem0 = rem;
                    let ghost entries0 = entries@;
                    let key_obj = match tmp.pop() {
                        None => {
                            proof {
                                assert(rem.len() == 0);
                                assert(spec_pairs(rem)
                                    == Some(Seq::<(Seq<u8>, SpecObject)>::empty()));
                                lemma_drop_keys_empty(dict_pairs_view(entries@));
                                assert(dict_pairs_view(entries@)
                                    + Seq::<(Seq<u8>, SpecObject)>::empty()
                                    =~= dict_pairs_view(entries@));
                                assert(spec_pairs(acc) == Some(dict_pairs_view(entries@)));
                                lemma_dict_view(entries, entries@.len() as int);
                                assert(dict_view(entries, entries@.len() as int)
                                    =~= dict_pairs_view(entries@));
                                assert(entry_view(StackEntry::Obj(Object::Dictionary(entries)))
                                    == SpecEntry::Obj(
                                    SpecObject::Dictionary(dict_pairs_view(entries@)),
                                ));
                                lemma_stack_push(
                                    stack@,
                                    StackEntry::Obj(Object::Dictionary(entries)),
                                );
                            }
                            let ghost pre_push = stack@;
                            stack.push(StackEntry::Obj(Object::Dictionary(entries)));
                            proof {
                                assert(stack_view(stack0).last() == SpecEntry::DictMark);
                                assert(spec_close_dict(stack_view(stack0), acc)
                                    == Some(stack_view(stack0).drop_last().push(
                                    SpecEntry::Obj(
                                        SpecObject::Dictionary(dict_pairs_view(entries0)),
                                    ),
                                )));
                                assert(pre_push =~= stack0.drop_last());
                                assert(stack_view(pre_push) == stack_view(stack0).drop_last());
                                assert(stack_view(stack@) == stack_view(pre_push).push(
                                    SpecEntry::Obj(
                                        SpecObject::Dictionary(dict_pairs_view(entries0)),
                                    ),
                                ));
                            }
                            return Ok(());
                        },
                        Some(o) => o,
                    };
                    proof {
                        assert(tmp0[tmp0.len() - 1] == key_obj);
                        assert(rem[0] == obj_view(tmp0[tmp0.len() - 1 - 0]));
                        assert(rem[0] == obj_view(key_obj));
                    }
                    let key = match key_obj {
                        Object::Name(n) => n,
                        _ => {
                            return Err(Error::Syntax("a dictionary key must be a name"));
                        },
                    };
                    proof {
                        assert(rem[0] == SpecObject::Name(key@));
                    }
                    let ghost tmp1 = tmp@;
                    let val = match tmp.pop() {
                        None => {
                            proof {
                                assert(rem.len() == 1);
                            }
                            return Err(Error::Syntax("a dictionary entry lacks its value"));
                        },
                        Some(o) => o,
                    };
                    proof {
                        assert(rem[1] == obj_view(tmp0[tmp0.len() - 1 - 1]));
                        assert(tmp1[tmp1.len() - 1] == val);
                        assert(tmp0[tmp0.len() - 2] == val);
                        assert(rem[1] == obj_view(val));
                    }
                    // Drop an entry the new pair shadows, then append it.
                    let ghost k = key@;
                    let ghost vm = obj_view(val);
                    let ghost e_pre = dict_pairs_view(entries@);
                    match find_key_index(&entries, &key) {
                        Some(idx) => {
                            let ghost entries_pre = entries@;
                            let _ = entries.remove(idx);
                            proof {
                                entries_pre.remove_ensures(idx as int);
                                e_pre.remove_ensures(idx as int);
                                assert(entries@ == entries_pre.remove(idx as int));
                                assert(dict_pairs_view(entries@) =~= e_pre.remove(idx as int));
                                assert forall|j: int| 0 <= j < e_pre.len() && j != idx
                                    implies (#[trigger] e_pre[j]).0 != k by {
                                    assert(e_pre[j].0 == entries_pre[j].0@);
                                }
                                lemma_remove_key_at(e_pre, k, idx as int);
                                // The removal keeps the entry list a mapping.
                                assert forall|i: int, j: int| 0 <= i < j < entries@.len()
                                    implies (#[trigger] entries@[i]).0@
                                    != (#[trigger] entries@[j]).0@ by {
                                    let pi: int = if i < idx { i } else { i + 1 };
                                    let pj: int = if j < idx { j } else { j + 1 };
                                    assert(entries@[i] == entries_pre.remove(idx as int)[i]);
                                    assert(entries@[j] == entries_pre.remove(idx as int)[j]);
                                    assert(entries@[i] == entries_pre[pi]);
                                    assert(entries@[j] == entries_pre[pj]);
                                }
                            }
                        },
                        None => {
                            proof {
                                lemma_has_key_iff(e_pre, k);
                                lemma_remove_key_noop(e_pre, k);
                            }
                        },
                    }
                    let ghost e_mid = dict_pairs_view(entries@);
                    let ghost entries_mid = entries@;
                    proof {
                        assert(e_mid == remove_key(e_pre, k));
                        lemma_remove_key_absent(e_pre, k);
                        lemma_has_key_iff(e_mid, k);
                    }
                    entries.push((key, val));
                    proof {
                        pairs_done = pairs_done + 1;
                        rem = rem.skip(2);
                        assert(rem =~= acc.skip(2 * pairs_done));
                        assert forall|j: int| 0 <= j < tmp@.len() implies rem[j] == obj_view(
                            #[trigger] tmp@[tmp@.len() - 1 - j],
                        ) by {
                            assert(tmp@[tmp@.len() - 1 - j] == tmp0[tmp0.len() - 1 - (j + 2)]);
                        }
                        // The new entry list stays a mapping.
                        assert forall|i: int, j: int| 0 <= i < j < entries@.len()
                            implies (#[trigger] entries@[i]).0@ != (#[trigger] entries@[j]).0@
                        by {
                            if j < entries@.len() - 1 {
                                assert(entries@[i] == entries_mid[i]);
                                assert(entries@[j] == entries_mid[j]);
                                assert(e_mid[i].0 == entries_mid[i].0@);
                                assert(e_mid[j].0 == entries_mid[j].0@);
                            } else {
                                assert(entries@[i] == entries_mid[i]);
                                assert(e_mid[i].0 == entries_mid[i].0@);
                                assert(e_mid[i].0 != k);
                            }
                        }
                        // The model of the new entry list.
                        assert(dict_pairs_view(entries@) =~= e_mid.push((k, vm)));
                        // The pair the parser just consumed.
                        assert(rem0[0] == SpecObject::Name(k));
                        assert(rem0[1] == vm);
                        assert(rem0.skip(2) =~= rem);
                        match spec_pairs(rem) {
                            Some(ps2) => {
                                if has_key(ps2, k) {
                                    lemma_drop_keys_push(e_mid, (k, vm), ps2);
                                    lemma_drop_keys_remove(e_pre, k, ps2);
                                } else {
                                    let cons = seq![(k, vm)] + ps2;
                                    assert(cons[0] == (k, vm));
                                    assert(cons.skip(1) =~= ps2);
                                    assert(has_key(cons, k));
                                    lemma_drop_keys_remove(e_pre, k, cons);
                                    lemma_drop_keys_cons_absent(e_mid, (k, vm), ps2);
                                    lemma_drop_keys_push(e_mid, (k, vm), ps2);
                                    assert(drop_keys_in(e_pre, cons) + cons
                                        =~= (drop_keys_in(e_mid, ps2).push((k, vm))) + ps2);
                                }
                            },
                            None => (),
                        }
                    }
                }
            },
        }
    }
}

/// Where an entry with the given key stands in the entry list, if anywhere.
#[verifier::loop_isolation(false)]
fn find_key_index(entries: &Vec<(Vec<u8>, Object)>, key: &Vec<u8>) -> (r: Option<usize>)
    ensures
        match r {
            Some(i) => i < entries@.len() && entries@[i as int].0@ == key@,
            None => forall|j: int| 0 <= j < entries@.len()
                ==> (#[trigger] entries@[j]).0@ != key@,
        },
{
    let n = entries.len();
    let mut i: usize = 0;
    while i < n
        invariant
            0 <= i <= n,
            n == entries@.len(),
            forall|j: int| 0 <= j < i ==> (#[trigger] entries@[j]).0@ != key@,
        decreases n - i,
    {
        if bytes_eq(entries[i].0.as_slice(), key.as_slice()) {
            return Some(i);
        }
        i = i + 1;
    }
    None
}

/// The filter names a stream's descriptor dictionary asks for, in order.
#[verifier::loop_isolation(false)]
fn filter_names(dict: &Object) -> (r: Result<Vec<Vec<u8>>, Error>)
    requires
        dict@ is Dictionary,
    ensures
        match r {
            Ok(names) => spec_filter_list(dict@->Dictionary_0)
                == Ok::<Seq<Seq<u8>>, SpecError>(names_view(names@)),
            Err(e) => spec_filter_list(dict@->Dictionary_0)
                == Err::<Seq<Seq<u8>>, SpecError>(e@),
        },
{
    let key = filter_key();
    let entry = dict.lookup(key.as_slice());
    match entry {
        None => {
            let names: Vec<Vec<u8>> = Vec::new();
            proof {
                assert(names_view(names@) =~= Seq::<Seq<u8>>::empty());
            }
            Ok(names)
        },
        Some(Object::Null) => {
            let names: Vec<Vec<u8>> = Vec::new();
            proof {
                assert(names_view(names@) =~= Seq::<Seq<u8>>::empty());
            }
            Ok(names)
        },
        Some(Object::Name(n)) => {
            let mut names: Vec<Vec<u8>> = Vec::new();
            names.push(copy_bytes(n));
            proof {
                assert(names_view(names@) =~= seq![n@]);
            }
            Ok(names)
        },
        Some(Object::Array(items)) => {
            let ghost items_v = obj_view(Object::Array(*items))->Array_0;
            proof {
                lemma_arr_view(*items, items@.len() as int);
                assert(items_v.skip(0) =~= items_v);
            }
            let mut names: Vec<Vec<u8>> = Vec::new();
            let n = items.len();
            let mut i: usize = 0;
            while i < n
                invariant
                    0 <= i <= n,
                    n == items@.len(),
                    items_v.len() == n,
                    forall|j: int| 0 <= j < n ==> items_v[j] == obj_view(#[trigger] items@[j]),
                    spec_name_list(items_v) == match spec_name_list(items_v.skip(i as int)) {
                        Ok(rest) => Ok::<Seq<Seq<u8>>, SpecError>(names_view(names@) + rest),
                        Err(e) => Err(e),
                    },
                decreases n - i,
            {
                let ghost names0 = names@;
                proof {
                    assert(items_v.skip(i as int)[0] == items_v[i as int]);
                    assert(items_v.skip(i as int).skip(1) =~= items_v.skip(i + 1));
                }
                match &items[i] {
                    Object::Name(nm) => {
                        names.push(copy_bytes(nm));
                        proof {
                            match spec_name_list(items_v.skip(i + 1)) {
                                Ok(rest) => {
                                    assert(names_view(names@) =~= names_view(names0).push(nm@));
                                    assert(names_view(names0) + (seq![nm@] + rest)
                                        =~= names_view(names@) + rest);
                                },
                                Err(_) => (),
                            }
                        }
                    },
                    other => {
                        return Err(Error::UnknownFilter(Vec::new()));
                    },
                }
                i = i + 1;
            }
            proof {
                assert(items_v.skip(n as int).len() == 0);
                assert(names_view(names@) + Seq::<Seq<u8>>::empty() =~= names_view(names@));
            }
            Ok(names)
        },
        Some(other) => Err(Error::UnknownFilter(Vec::new())),
    }
}

/// Applies the named filters left to right to the stream's raw bytes.
#[verifier::loop_isolation(false)]
fn apply_filters(names: &Vec<Vec<u8>>, data: Vec<u8>) -> (r: Result<Vec<u8>, Error>)
    ensures
        match r {
            Ok(v) => spec_apply_filters(names_view(names@), data@)
                == Ok::<Seq<u8>, SpecError>(v@),
            Err(e) => spec_apply_filters(names_view(names@), data@)
                == Err::<Seq<u8>, SpecError>(e@),
        },
{
    let ghost nv = names_view(names@);
    let mut cur = data;
    let n = names.len();
    let mut i: usize = 0;
    let flate = flate_decode_name();
    proof {
        assert(nv.skip(0) =~= nv);
    }
    while i < n
        invariant
            0 <= i <= n,
            n == names@.len() == nv.len(),
            nv == names_view(names@),
            spec_apply_filters(nv, data@) == spec_apply_filters(nv.skip(i as int), cur@),
        decreases n - i,
    {
        proof {
            assert(nv.skip(i as int)[0] == nv[i as int]);
            assert(nv[i as int] == names@[i as int]@);
            assert(nv.skip(i as int).skip(1) =~= nv.skip(i + 1));
        }
        if bytes_eq(names[i].as_slice(), flate.as_slice()) {
            cur = match flate_decode(&cur) {
                Ok(v) => v,
                Err(e) => {
                    return Err(e);
                },
            };
        } else {
            return Err(Error::UnknownFilter(copy_bytes(&names[i])));
        }
        i = i + 1;
    }
    proof {
        assert(nv.skip(n as int).len() == 0);
    }
    Ok(cur)
}

/// Parses one object out of the input, reading tokens onto a typed stack
/// until the given end keyword arrives, at which point the stack must hold
/// exactly one finished object. Yields the envelope identity recorded by an
/// `obj` keyword, if one was read, the object, and the remaining input.
#[verifier::loop_isolation(false)]
pub fn parse_object_until_keyword<'a>(raw: &'a [u8], end_keyword: &[u8]) -> (res: Result<
    ((Option<IndirectRef>, Object), &'a [u8]),
    Error,
>)
    ensures
        match res {
            Ok(((env, obj), rest)) => spec_parse_object_until(raw@, end_keyword@)
                == Ok::<((Option<IndirectRef>, SpecObject), Seq<u8>), SpecError>(
                ((env, obj@), rest@),
            ),
            Err(e) => spec_parse_object_until(raw@, end_keyword@)
                == Err::<((Option<IndirectRef>, SpecObject), Seq<u8>), SpecError>(e@),
        },
{
    let mut cur: &'a [u8] = raw;
    let mut stack: Vec<StackEntry> = Vec::new();
    let mut env: Option<IndirectRef> = None;
    let kw_true_v = true_keyword();
    let kw_false_v = false_keyword();
    let kw_null_v = null_keyword();
    let kw_r_v = r_keyword();
    let kw_obj_v = obj_keyword();
    proof {
        assert(stack_view(stack@) =~= Seq::<SpecEntry>::empty());
    }
    loop
        invariant
            spec_parse_object_until(raw@, end_keyword@) == spec_obj_loop(
                cur@,
                end_keyword@,
                stack_view(stack@),
                env,
            ),
        decreases cur@.len(),
    {
        let ghost stack0 = stack@;
        let (tok, rest) = match parse_token(cur) {
            Ok(x) => x,
            Err(e) => {
                return Err(e);
            },
        };
        match tok {
            Token::Integer(i) => {
                proof {
                    lemma_stack_push(stack@, StackEntry::Obj(Object::Integer(i)));
                }
                stack.push(StackEntry::Obj(Object::Integer(i)));
                cur = rest;
            },
            Token::Real(t) => {
                proof {
                    lemma_stack_push(stack@, StackEntry::Obj(Object::Real(t)));
                }
                stack.push(StackEntry::Obj(Object::Real(t)));
                cur = rest;
            },
            Token::LiteralString(s) => {
                proof {
                    lemma_stack_push(stack@, StackEntry::Obj(Object::String(s)));
                }
                stack.push(StackEntry::Obj(Object::String(s)));
                cur = rest;
            },
            Token::HexadecimalString(s) => {
                proof {
                    lemma_stack_push(stack@, StackEntry::Obj(Object::String(s)));
                }
                stack.push(StackEntry::Obj(Object::String(s)));
                cur = rest;
            },
            Token::Name(n) => {
                proof {
                    lemma_stack_push(stack@, StackEntry::Obj(Object::Name(n)));
                }
                stack.push(StackEntry::Obj(Object::Name(n)));
                cur = rest;
            },
            Token::BeginArray => {
                proof {
                    lemma_stack_push(stack@, StackEntry::ArrayMark);
                }
                stack.push(StackEntry::ArrayMark);
                cur = rest;
            },
            Token::EndArray => {
                match close_array(&mut stack) {
                    Ok(_) => {
                        cur = rest;
                    },
                    Err(e) => {
                        return Err(e);
                    },
                }
            },
            Token::BeginDictionary => {
                proof {
                    lemma_stack_push(stack@, StackEntry::DictMark);
                }
                stack.push(StackEntry::DictMark);
                cur = rest;
            },
            Token::EndDictionary => {
                match close_dict(&mut stack) {
                    Ok(_) => {
                        cur = rest;
                    },
                    Err(e) => {
                        return Err(e);
                    },
                }
            },
            Token::Stream(body) => {
                proof {
                    if stack0.len() > 0 {
                        lemma_stack_drop(stack0);
                    } else {
                        assert(stack_view(stack0).len() == 0);
                    }
                }
                let dict_obj = match stack.pop() {
                    Some(StackEntry::Obj(o)) => o,
                    _ => {
                        return Err(Error::Syntax("a stream must follow its dictionary"));
                    },
                };
                match &dict_obj {
                    Object::Dictionary(_) => (),
                    _ => {
                        return Err(Error::Syntax("a stream must follow its dictionary"));
                    },
                }
                let names = match filter_names(&dict_obj) {
                    Ok(v) => v,
                    Err(e) => {
                        return Err(e);
                    },
                };
                let decoded = match apply_filters(&names, body) {
                    Ok(v) => v,
                    Err(e) => {
                        return Err(e);
                    },
                };
                proof {
                    assert(stack@ =~= stack0.drop_last());
                    lemma_stack_push(
                        stack@,
                        StackEntry::Obj(Object::Stream(Box::new(dict_obj), decoded)),
                    );
                }
                stack.push(StackEntry::Obj(Object::Stream(Box::new(dict_obj), decoded)));
                cur = rest;
            },
            Token::Keyword(k) => {
                if bytes_eq(k.as_slice(), end_keyword) {
                    if stack.len() != 1 {
                        return Err(
                            Error::Syntax("the end keyword arrived without one whole object"),
                        );
                    }
                    proof {
                        lemma_stack_drop(stack@);
                        assert(stack_view(stack@)[0] == entry_view(stack@[0]));
                    }
                    match stack.pop() {
                        Some(StackEntry::Obj(o)) => {
                            return Ok(((env, o), rest));
                        },
                        _ => {
                            return Err(
                                Error::Syntax(
                                    "the end keyword arrived without one whole object",
                                ),
                            );
                        },
                    }
                } else if bytes_eq(k.as_slice(), kw_true_v.as_slice()) {
                    proof {
                        lemma_stack_push(stack@, StackEntry::Obj(Object::Boolean(true)));
                    }
                    stack.push(StackEntry::Obj(Object::Boolean(true)));
                    cur = rest;
                } else if bytes_eq(k.as_slice(), kw_false_v.as_slice()) {
                    proof {
                        lemma_stack_push(stack@, StackEntry::Obj(Object::Boolean(false)));
                    }
                    stack.push(StackEntry::Obj(Object::Boolean(false)));
                    cur = rest;
                } else if bytes_eq(k.as_slice(), kw_null_v.as_slice()) {
                    proof {
                        lemma_stack_push(stack@, StackEntry::Obj(Object::Null));
                    }
                    stack.push(StackEntry::Obj(Object::Null));
                    cur = rest;
                } else if bytes_eq(k.as_slice(), kw_r_v.as_slice()) {
                    match take_ref(&mut stack) {
                        Ok(ind) => {
                            proof {
                                lemma_stack_push(
                                    stack@,
                                    StackEntry::Obj(Object::Indirect(ind)),
                                );
                            }
                            stack.push(StackEntry::Obj(Object::Indirect(ind)));
                            cur = rest;
                        },
                        Err(e) => {
                            return Err(e);
                        },
                    }
                } else if bytes_eq(k.as_slice(), kw_obj_v.as_slice()) {
                    match take_ref(&mut stack) {
                        Ok(ind) => {
                            env = Some(ind);
                            cur = rest;
                        },
                        Err(e) => {
                            return Err(e);
                        },
                    }
                } else {
                    return Err(Error::Syntax("unrecognized keyword"));
                }
            },
        }
    }
}

/// Pops the two integers that precede an `R` or `obj` keyword and forms the
/// indirect reference they name: number below generation, both in range.
#[verifier::loop_isolation(false)]
fn take_ref(stack: &mut Vec<StackEntry>) -> (r: Result<IndirectRef, Error>)
    ensures
        match r {
            Ok(ind) => spec_take_ref(stack_view(old(stack)@)) matches Some((si, st))
                && si == ind && st == stack_view(final(stack)@),
            Err(e) => spec_take_ref(stack_view(old(stack)@)) is None && e@ is Syntax,
        },
{
    let ghost stack0 = stack@;
    proof {
        if stack0.len() > 0 {
            lemma_stack_drop(stack0);
            if stack0.len() > 1 {
                lemma_stack_drop(stack0.drop_last());
                assert(stack_view(stack0.drop_last()).last()
                    == entry_view(stack0.drop_last().last()));
            }
        }
        assert(stack_view(stack0).len() == stack0.len());
    }
    let gen_entry = stack.pop();
    let num_entry = stack.pop();
    match (num_entry, gen_entry) {
        (
            Some(StackEntry::Obj(Object::Integer(num))),
            Some(StackEntry::Obj(Object::Integer(gen))),
        ) => {
            if num < 0 || num > u32::MAX as i64 || gen < 0 || gen > u16::MAX as i64 {
                return Err(
                    Error::Syntax("an indirect reference's numbers are out of range"),
                );
            }
            proof {
                assert(stack0.drop_last().last() == stack0[stack0.len() - 2]);
                assert(stack@ =~= stack0.take(stack0.len() - 2));
                assert(stack_view(stack@) =~= stack_view(stack0).take(stack0.len() - 2));
            }
            Ok(IndirectRef { number: num as u32, generation: gen as u16 })
        },
        _ => Err(Error::Syntax("an indirect reference needs two preceding integers")),
    }
}

} // verus!
