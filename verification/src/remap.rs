//! Rewriting object identities through a mapping table, and collecting
//! the references an object holds.

use vstd::prelude::*;

use crate::assoc::{assoc_first_index, assoc_has, assoc_lookup, lemma_assoc_characterization};
use crate::objects::{Dict, Object, ObjectId, ObjView, lemma_view_entries, lemma_view_obj_seq,
    view_entries, view_obj_seq};

verus! {

/// Where a mapping table sends an identity: the first entry for it,
/// or the identity itself when the table does not mention it.
pub open spec fn remap_id(t: Seq<(ObjectId, ObjectId)>, id: ObjectId) -> ObjectId {
    match assoc_lookup(t, id) {
        Some(n) => n,
        None => id,
    }
}

/// An object value with every reference sent through the table; all
/// other content is unchanged.
pub open spec fn remap_view(t: Seq<(ObjectId, ObjectId)>, v: ObjView) -> ObjView
    decreases v,
{
    match v {
        ObjView::Reference(id) => ObjView::Reference(remap_id(t, id)),
        ObjView::Array(items) => ObjView::Array(remap_view_seq(t, items)),
        ObjView::Dictionary(es) => ObjView::Dictionary(remap_view_entries(t, es)),
        ObjView::Stream(es, bytes) => ObjView::Stream(remap_view_entries(t, es), bytes),
        _ => v,
    }
}

/// Elementwise remapping of a sequence of object values.
pub open spec fn remap_view_seq(t: Seq<(ObjectId, ObjectId)>, s: Seq<ObjView>) -> Seq<ObjView>
    decreases s,
{
    if s.len() == 0 {
        Seq::empty()
    } else {
        remap_view_seq(t, s.drop_last()).push(remap_view(t, s.last()))
    }
}

/// Valuewise remapping of dictionary entries; keys are unchanged.
pub open spec fn remap_view_entries(
    t: Seq<(ObjectId, ObjectId)>,
    s: Seq<(Seq<char>, ObjView)>,
) -> Seq<(Seq<char>, ObjView)>
    decreases s,
{
    if s.len() == 0 {
        Seq::empty()
    } else {
        remap_view_entries(t, s.drop_last()).push(
            (s.last().0, remap_view(t, s.last().1)),
        )
    }
}

/// `remap_view_seq` maps the sequence pointwise.
pub proof fn lemma_remap_view_seq(t: Seq<(ObjectId, ObjectId)>, s: Seq<ObjView>)
    ensures
        remap_view_seq(t, s).len() == s.len(),
        forall|j: int| 0 <= j < s.len() ==> remap_view_seq(t, s)[j] == remap_view(t, s[j]),
    decreases s.len(),
{
    if s.len() > 0 {
        lemma_remap_view_seq(t, s.drop_last());
    }
}

/// `remap_view_entries` maps the entries pointwise.
pub proof fn lemma_remap_view_entries(t: Seq<(ObjectId, ObjectId)>, s: Seq<(Seq<char>, ObjView)>)
    ensures
        remap_view_entries(t, s).len() == s.len(),
        forall|j: int|
            0 <= j < s.len() ==> remap_view_entries(t, s)[j] == (
                s[j].0,
                remap_view(t, s[j].1),
            ),
    decreases s.len(),
{
    if s.len() > 0 {
        lemma_remap_view_entries(t, s.drop_last());
    }
}

/// Where the table sends `id`: a linear scan of the table.
pub fn apply_table(t: &Vec<(ObjectId, ObjectId)>, id: ObjectId) -> (r: ObjectId)
    ensures
        r == remap_id(t@, id),
{
    let mut i: usize = 0;
    while i < t.len()
        invariant
            i <= t.len(),
            forall|j: int| 0 <= j < i ==> t@[j].0 != id,
        decreases t.len() - i,
    {
        if t[i].0 == id {
            proof {
                lemma_assoc_characterization(t@, id);
                assert(assoc_has(t@, id));
                assert(assoc_first_index(t@, id) == i);
            }
            return t[i].1;
        }
        i += 1;
    }
    proof {
        if assoc_has(t@, id) {
            let w = choose|w: int| 0 <= w < t@.len() && t@[w].0 == id;
        }
        lemma_assoc_characterization(t@, id);
    }
    id
}

/// A copy of `obj` with every reference sent through the table.
pub fn remap_object(t: &Vec<(ObjectId, ObjectId)>, obj: &Object) -> (r: Object)
    ensures
        r@ == remap_view(t@, obj@),
    decreases *obj,
{
    match obj {
        Object::Null => Object::Null,
        Object::Boolean(b) => Object::Boolean(*b),
        Object::Integer(i) => Object::Integer(*i),
        Object::Real(bits) => Object::Real(*bits),
        Object::Text(s) => Object::Text(s.clone()),
        Object::Name(s) => Object::Name(s.clone()),
        Object::Array(items) => {
            let mut out: Vec<Object> = Vec::new();
            let mut i: usize = 0;
            while i < items.len()
                invariant
                    i <= items.len(),
                    out@.len() == i,
                    forall|j: int|
                        0 <= j < i ==> out@[j].ov() == remap_view(t@, items@[j].ov()),
                    *obj == Object::Array(*items),
                decreases items.len() - i,
            {
                let item: &Object = &items[i];
                proof {
                    assert((*obj)->Array_0 == *items);
                    assert(decreases_to!(*obj => (*obj)->Array_0));
                    assert(decreases_to!(*items => items[i as int]));
                    assert(decreases_to!(*obj => *item));
                }
                out.push(remap_object(t, item));
                i += 1;
            }
            let r = Object::Array(out);
            proof {
                lemma_view_obj_seq(out@);
                lemma_view_obj_seq(items@);
                lemma_remap_view_seq(t@, view_obj_seq(items@));
                assert(view_obj_seq(out@) =~= remap_view_seq(t@, view_obj_seq(items@)));
            }
            r
        },
        Object::Dictionary(d) => {
            proof {
                assert((*obj)->Dictionary_0 == *d);
                assert(decreases_to!(*obj => (*obj)->Dictionary_0));
            }
            Object::Dictionary(remap_dict(t, d))
        },
        Object::Stream(d, bytes) => {
            proof {
                assert((*obj)->Stream_0 == *d);
                assert(decreases_to!(*obj => (*obj)->Stream_0));
            }
            let d2 = remap_dict(t, d);
            let mut payload: Vec<u8> = Vec::new();
            let mut i: usize = 0;
            while i < bytes.len()
                invariant
                    i <= bytes.len(),
                    payload@ =~= bytes@.subrange(0, i as int),
                decreases bytes.len() - i,
            {
                payload.push(bytes[i]);
                i += 1;
            }
            assert(payload@ =~= bytes@);
            Object::Stream(d2, payload)
        },
        Object::Reference(id) => Object::Reference(apply_table(t, *id)),
    }
}

/// A copy of `d` with every reference in its values sent through the
/// table; keys are unchanged.
pub fn remap_dict(t: &Vec<(ObjectId, ObjectId)>, d: &Dict) -> (r: Dict)
    ensures
        r@ == remap_view_entries(t@, d@),
    decreases *d,
{
    let mut entries: Vec<(String, Object)> = Vec::new();
    let mut i: usize = 0;
    while i < d.entries.len()
        invariant
            i <= d.entries.len(),
            entries@.len() == i,
            forall|j: int|
                0 <= j < i ==> entries@[j].0@ == d.entries@[j].0@ && entries@[j].1.ov()
                    == remap_view(t@, d.entries@[j].1.ov()),
        decreases d.entries.len() - i,
    {
        let key = d.entries[i].0.clone();
        proof {
            assert(decreases_to!(*d => d.entries));
            assert(decreases_to!(d.entries => d.entries[i as int]));
            assert(decreases_to!(d.entries[i as int] => d.entries[i as int].1));
            assert(decreases_to!(*d => d.entries@[i as int].1));
        }
        let value = remap_object(t, &d.entries[i].1);
        entries.push((key, value));
        i += 1;
    }
    let r = Dict { entries };
    proof {
        lemma_view_entries(entries@);
        lemma_view_entries(d.entries@);
        lemma_remap_view_entries(t@, view_entries(d.entries@));
        assert(r@ =~= remap_view_entries(t@, d@));
    }
    r
}

/// The references an object value holds, anywhere inside it, in
/// left-to-right order.
pub open spec fn refs_of(v: ObjView) -> Seq<ObjectId>
    decreases v,
{
    match v {
        ObjView::Reference(id) => seq![id],
        ObjView::Array(items) => refs_of_seq(items),
        ObjView::Dictionary(es) => refs_of_entries(es),
        ObjView::Stream(es, _) => refs_of_entries(es),
        _ => Seq::empty(),
    }
}

/// The references held by a sequence of object values.
pub open spec fn refs_of_seq(s: Seq<ObjView>) -> Seq<ObjectId>
    decreases s,
{
    if s.len() == 0 {
        Seq::empty()
    } else {
        refs_of_seq(s.drop_last()) + refs_of(s.last())
    }
}

/// The references held by the values of dictionary entries.
pub open spec fn refs_of_entries(s: Seq<(Seq<char>, ObjView)>) -> Seq<ObjectId>
    decreases s,
{
    if s.len() == 0 {
        Seq::empty()
    } else {
        refs_of_entries(s.drop_last()) + refs_of(s.last().1)
    }
}

/// Appends every reference `obj` holds to `out`.
pub fn push_refs(obj: &Object, out: &mut Vec<ObjectId>)
    ensures
        final(out)@ == old(out)@ + refs_of(obj@),
    decreases *obj,
{
    match obj {
        Object::Reference(id) => {
            out.push(*id);
            proof {
                assert(final(out)@ =~= old(out)@ + refs_of(obj@));
            }
        },
        Object::Array(items) => {
            let mut i: usize = 0;
            proof {
                lemma_view_obj_seq(items@);
                assert(out@ =~= old(out)@ + refs_of_seq(view_obj_seq(items@).take(0)));
            }
            while i < items.len()
                invariant
                    i <= items.len(),
                    view_obj_seq(items@).len() == items@.len(),
                    forall|j: int|
                        0 <= j < items@.len() ==> view_obj_seq(items@)[j] == items@[j].ov(),
                    out@ == old(out)@ + refs_of_seq(view_obj_seq(items@).take(i as int)),
                    *obj == Object::Array(*items),
                decreases items.len() - i,
            {
                let item: &Object = &items[i];
                proof {
                    assert((*obj)->Array_0 == *items);
                    assert(decreases_to!(*obj => (*obj)->Array_0));
                    assert(decreases_to!(*items => items[i as int]));
                    assert(decreases_to!(*obj => *item));
                }
                push_refs(item, out);
                proof {
                    let vs = view_obj_seq(items@);
                    assert(vs.take(i + 1).drop_last() =~= vs.take(i as int));
                    assert(vs.take(i + 1).last() == vs[i as int]);
                    assert(out@ =~= old(out)@ + refs_of_seq(vs.take(i + 1)));
                }
                i += 1;
            }
            proof {
                lemma_view_obj_seq(items@);
                let vs = view_obj_seq(items@);
                assert(vs.take(vs.len() as int) =~= vs);
            }
        },
        Object::Dictionary(d) => {
            proof {
                assert((*obj)->Dictionary_0 == *d);
                assert(decreases_to!(*obj => (*obj)->Dictionary_0));
            }
            push_dict_refs(d, out);
        },
        Object::Stream(d, _) => {
            proof {
                assert((*obj)->Stream_0 == *d);
                assert(decreases_to!(*obj => (*obj)->Stream_0));
            }
            push_dict_refs(d, out);
        },
        _ => {
            proof {
                assert(final(out)@ =~= old(out)@ + refs_of(obj@));
            }
        },
    }
}

/// Appends every reference held by the values of `d` to `out`.
pub fn push_dict_refs(d: &Dict, out: &mut Vec<ObjectId>)
    ensures
        final(out)@ == old(out)@ + refs_of_entries(d@),
    decreases *d,
{
    proof {
        lemma_view_entries(d.entries@);
        assert(out@ =~= old(out)@ + refs_of_entries(view_entries(d.entries@).take(0)));
    }
    let mut i: usize = 0;
    while i < d.entries.len()
        invariant
            i <= d.entries.len(),
            view_entries(d.entries@).len() == d.entries@.len(),
            forall|j: int|
                0 <= j < d.entries@.len() ==> view_entries(d.entries@)[j] == (
                    d.entries@[j].0@,
                    d.entries@[j].1.ov(),
                ),
            out@ == old(out)@ + refs_of_entries(view_entries(d.entries@).take(i as int)),
        decreases d.entries.len() - i,
    {
        proof {
            assert(decreases_to!(*d => d.entries));
            assert(decreases_to!(d.entries => d.entries[i as int]));
            assert(decreases_to!(d.entries[i as int] => d.entries[i as int].1));
            assert(decreases_to!(*d => d.entries@[i as int].1));
        }
        push_refs(&d.entries[i].1, out);
        proof {
            let vs = view_entries(d.entries@);
            assert(vs.take(i + 1).drop_last() =~= vs.take(i as int));
            assert(vs.take(i + 1).last() == vs[i as int]);
            assert(out@ =~= old(out)@ + refs_of_entries(vs.take(i + 1)));
        }
        i += 1;
    }
    proof {
        let vs = view_entries(d.entries@);
        assert(vs.take(vs.len() as int) =~= vs);
    }
}


/// Every reference held by one entry's value is among the references
/// of the whole entry list.
pub proof fn lemma_refs_of_entries_member(es: Seq<(Seq<char>, ObjView)>, j: int, r: ObjectId)
    requires
        0 <= j < es.len(),
        refs_of(es[j].1).contains(r),
    ensures
        refs_of_entries(es).contains(r),
    decreases es.len(),
{
    if j == es.len() - 1 {
        let ri = choose|ri: int| 0 <= ri < refs_of(es[j].1).len() && refs_of(es[j].1)[ri] == r;
        assert(refs_of_entries(es)[refs_of_entries(es.drop_last()).len() + ri] == r);
    } else {
        assert(es.drop_last()[j] == es[j]);
        lemma_refs_of_entries_member(es.drop_last(), j, r);
        let ri = choose|ri: int|
            0 <= ri < refs_of_entries(es.drop_last()).len() && refs_of_entries(
                es.drop_last(),
            )[ri] == r;
        assert(refs_of_entries(es)[ri] == r);
    }
}

/// Every reference element of a sequence is among its references.
pub proof fn lemma_refs_of_seq_member(s: Seq<ObjView>, j: int, r: ObjectId)
    requires
        0 <= j < s.len(),
        s[j] == ObjView::Reference(r),
    ensures
        refs_of_seq(s).contains(r),
    decreases s.len(),
{
    if j == s.len() - 1 {
        assert(refs_of(s[j])[0] == r);
        assert(refs_of_seq(s)[refs_of_seq(s.drop_last()).len() as int] == r);
    } else {
        assert(s.drop_last()[j] == s[j]);
        lemma_refs_of_seq_member(s.drop_last(), j, r);
        let ri = choose|ri: int|
            0 <= ri < refs_of_seq(s.drop_last()).len() && refs_of_seq(s.drop_last())[ri] == r;
        assert(refs_of_seq(s)[ri] == r);
    }
}


/// A reference bound in a dictionary is among the dictionary's
/// references.
pub proof fn lemma_entry_ref_member(es: Seq<(Seq<char>, ObjView)>, key: Seq<char>, x: ObjectId)
    requires
        assoc_lookup(es, key) == Some(ObjView::Reference(x)),
    ensures
        refs_of_entries(es).contains(x),
{
    lemma_assoc_characterization(es, key);
    if !assoc_has(es, key) {
        assert(assoc_lookup(es, key) is None);
    }
    let j = assoc_first_index(es, key);
    assert(es[j].1 == ObjView::Reference(x));
    assert(refs_of(es[j].1)[0] == x);
    assert(refs_of(es[j].1).contains(x));
    lemma_refs_of_entries_member(es, j, x);
}

} // verus!
