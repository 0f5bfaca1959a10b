//! The object model: identities, tagged object values and dictionaries,
//! together with their mathematical views.

use vstd::prelude::*;

use crate::assoc::{assoc_first_index, assoc_has, assoc_lookup, assoc_remove, assoc_set,
    lemma_assoc_characterization};

verus! {

/// One graph node's address inside a document's namespace: a numeric id
/// together with a generation counter.
#[derive(Clone, Copy, PartialEq, Eq, Structural, Debug)]
pub struct ObjectId {
    pub num: u32,
    pub gen: u16,
}

/// A tagged object value. `Real` carries the raw bit pattern of a
/// 32-bit binary floating-point value; the merge engine never computes
/// on such a value, it only carries it through. `Text` holds the
/// decoded character content of a string object; `Stream` holds its
/// dictionary and its opaque byte payload.
pub enum Object {
    Null,
    Boolean(bool),
    Integer(i64),
    Real(u32),
    Text(String),
    Name(String),
    Array(Vec<Object>),
    Dictionary(Dict),
    Stream(Dict, Vec<u8>),
    Reference(ObjectId),
}

/// A dictionary: an ordered list of (key, value) entries with the
/// first entry for a key giving its value.
pub struct Dict {
    pub entries: Vec<(String, Object)>,
}

/// The mathematical value of an `Object`.
#[verifier::ext_equal]
pub enum ObjView {
    Null,
    Boolean(bool),
    Integer(i64),
    Real(u32),
    Text(Seq<char>),
    Name(Seq<char>),
    Array(Seq<ObjView>),
    Dictionary(Seq<(Seq<char>, ObjView)>),
    Stream(Seq<(Seq<char>, ObjView)>, Seq<u8>),
    Reference(ObjectId),
}

/// The views of a sequence of objects, in order.
pub open spec fn view_obj_seq(s: Seq<Object>) -> Seq<ObjView>
    decreases s,
{
    if s.len() == 0 {
        Seq::empty()
    } else {
        view_obj_seq(s.drop_last()).push(s.last().ov())
    }
}

/// The views of a sequence of dictionary entries, in order.
pub open spec fn view_entries(s: Seq<(String, Object)>) -> Seq<(Seq<char>, ObjView)>
    decreases s,
{
    if s.len() == 0 {
        Seq::empty()
    } else {
        view_entries(s.drop_last()).push((s.last().0@, s.last().1.ov()))
    }
}

impl Object {
    /// The mathematical value of this object.
    pub open spec fn ov(self) -> ObjView
        decreases self,
    {
        match self {
            Object::Null => ObjView::Null,
            Object::Boolean(b) => ObjView::Boolean(b),
            Object::Integer(i) => ObjView::Integer(i),
            Object::Real(bits) => ObjView::Real(bits),
            Object::Text(s) => ObjView::Text(s@),
            Object::Name(s) => ObjView::Name(s@),
            Object::Array(items) => ObjView::Array(view_obj_seq(items@)),
            Object::Dictionary(d) => ObjView::Dictionary(view_entries(d.entries@)),
            Object::Stream(d, bytes) => ObjView::Stream(view_entries(d.entries@), bytes@),
            Object::Reference(id) => ObjView::Reference(id),
        }
    }
}

impl View for Object {
    type V = ObjView;

    open spec fn view(&self) -> ObjView {
        self.ov()
    }
}

impl View for Dict {
    type V = Seq<(Seq<char>, ObjView)>;

    open spec fn view(&self) -> Seq<(Seq<char>, ObjView)> {
        view_entries(self.entries@)
    }
}

/// `view_obj_seq` maps the sequence pointwise.
pub proof fn lemma_view_obj_seq(s: Seq<Object>)
    ensures
        view_obj_seq(s).len() == s.len(),
        forall|j: int| 0 <= j < s.len() ==> view_obj_seq(s)[j] == s[j].ov(),
    decreases s.len(),
{
    if s.len() > 0 {
        lemma_view_obj_seq(s.drop_last());
    }
}

/// `view_entries` maps the sequence pointwise.
pub proof fn lemma_view_entries(s: Seq<(String, Object)>)
    ensures
        view_entries(s).len() == s.len(),
        forall|j: int|
            0 <= j < s.len() ==> view_entries(s)[j] == (s[j].0@, s[j].1.ov()),
    decreases s.len(),
{
    if s.len() > 0 {
        lemma_view_entries(s.drop_last());
    }
}

impl Clone for Object {
    /// A clone has the same mathematical value.
    fn clone(&self) -> (res: Self)
        ensures
            res@ == self@,
        decreases *self,
    {
        match self {
            Object::Null => Object::Null,
            Object::Boolean(b) => Object::Boolean(*b),
            Object::Integer(i) => Object::Integer(*i),
            Object::Real(bits) => Object::Real(*bits),
            Object::Text(s) => Object::Text(s.clone()),
            Object::Name(s) => Object::Name(s.clone()),
            Object::Array(items) => {
                let mut out: Vec<Object> = Vec::new();
                let mut i: usize = 0;
                while i < items.len()
                    invariant
                        i <= items.len(),
                        out@.len() == i,
                        forall|j: int| 0 <= j < i ==> out@[j].ov() == items@[j].ov(),
                        *self == Object::Array(*items),
                    decreases items.len() - i,
                {
                    let item: &Object = &items[i];
                    proof {
                        assert((*self)->Array_0 == *items);
                        assert(decreases_to!(*self => (*self)->Array_0));
                        assert(decreases_to!(*items => items[i as int]));
                        assert(decreases_to!(*self => *item));
                    }
                    out.push(item.clone());
                    i += 1;
                }
                let r = Object::Array(out);
                proof {
                    lemma_view_obj_seq(out@);
                    lemma_view_obj_seq(items@);
                    assert(view_obj_seq(out@) =~= view_obj_seq(items@));
                }
                r
            },
            Object::Dictionary(d) => {
                proof {
                    assert((*self)->Dictionary_0 == *d);
                    assert(decreases_to!(*self => (*self)->Dictionary_0));
                }
                Object::Dictionary(d.clone())
            },
            Object::Stream(d, bytes) => {
                proof {
                    assert((*self)->Stream_0 == *d);
                    assert(decreases_to!(*self => (*self)->Stream_0));
                }
                let d2 = d.clone();
                let mut payload: Vec<u8> = Vec::new();
                let mut i: usize = 0;
                while i < bytes.len()
                    invariant
                        i <= bytes.len(),
                        payload@ =~= bytes@.subrange(0, i as int),
                    decreases bytes.len() - i,
                {
                    payload.push(bytes[i]);
                    i += 1;
                }
                assert(payload@ =~= bytes@);
                Object::Stream(d2, payload)
            },
            Object::Reference(id) => Object::Reference(*id),
        }
    }
}

impl Clone for Dict {
    /// A clone has the same mathematical value.
    fn clone(&self) -> (res: Self)
        ensures
            res@ == self@,
        decreases *self,
    {
        let mut entries: Vec<(String, Object)> = Vec::new();
        let mut i: usize = 0;
        while i < self.entries.len()
            invariant
                i <= self.entries.len(),
                entries@.len() == i,
                forall|j: int|
                    0 <= j < i ==> entries@[j].0@ == self.entries@[j].0@ && entries@[j].1.ov()
                        == self.entries@[j].1.ov(),
            decreases self.entries.len() - i,
        {
            let key = self.entries[i].0.clone();
            proof {
                assert(decreases_to!(*self => self.entries));
                assert(decreases_to!(self.entries => self.entries[i as int]));
                assert(decreases_to!(self.entries[i as int] => self.entries[i as int].1));
                assert(decreases_to!(*self => self.entries@[i as int].1));
            }
            let value = self.entries[i].1.clone();
            entries.push((key, value));
            i += 1;
        }
        let r = Dict { entries };
        proof {
            lemma_view_entries(entries@);
            lemma_view_entries(self.entries@);
            assert(r@ =~= (*self)@);
        }
        r
    }
}

/// Whether a string reads as the given literal.
pub fn text_eq(a: &String, b: &str) -> (r: bool)
    ensures
        r == (a@ == b@),
{
    let b_owned: String = b.to_owned();
    *a == b_owned
}

impl Dict {
    pub fn empty() -> (r: Dict)
        ensures
            r@ =~= Seq::<(Seq<char>, ObjView)>::empty(),
    {
        Dict { entries: Vec::new() }
    }

    /// A reference to the value bound to `key`, if any: the first
    /// matching entry wins.
    pub fn get(&self, key: &str) -> (r: Option<&Object>)
        ensures
            match r {
                Some(v) => assoc_lookup(self@, key@) == Some(v@) && assoc_has(self@, key@),
                None => assoc_lookup(self@, key@) is None && !assoc_has(self@, key@),
            },
    {
        proof {
            lemma_view_entries(self.entries@);
        }
        let mut i: usize = 0;
        while i < self.entries.len()
            invariant
                i <= self.entries.len(),
                forall|j: int| 0 <= j < i ==> self@[j].0 != key@,
                self@ == view_entries(self.entries@),
                view_entries(self.entries@).len() == self.entries@.len(),
                forall|j: int|
                    0 <= j < self.entries@.len() ==> view_entries(self.entries@)[j] == (
                        self.entries@[j].0@,
                        self.entries@[j].1.ov(),
                    ),
            decreases self.entries.len() - i,
        {
            if text_eq(&self.entries[i].0, key) {
                proof {
                    lemma_assoc_characterization(self@, key@);
                    assert(self@[i as int].0 == key@);
                    assert(assoc_has(self@, key@));
                    assert(assoc_first_index(self@, key@) == i);
                }
                return Some(&self.entries[i].1);
            }
            i += 1;
        }
        proof {
            if assoc_has(self@, key@) {
                let w = choose|w: int| 0 <= w < self@.len() && self@[w].0 == key@;
            }
            lemma_assoc_characterization(self@, key@);
        }
        None
    }

    pub fn has(&self, key: &str) -> (r: bool)
        ensures
            r == assoc_has(self@, key@),
    {
        self.get(key).is_some()
    }

    /// Binds `key` to `value`: the first entry for `key` is replaced,
    /// or, with no such entry, a new entry is appended.
    pub fn insert(&mut self, key: &str, value: Object)
        ensures
            final(self)@ == assoc_set(old(self)@, key@, value@),
    {
        proof {
            lemma_view_entries(self.entries@);
        }
        let k: String = key.to_owned();
        let ghost old_view = view_entries(self.entries@);
        let mut i: usize = 0;
        while i < self.entries.len()
            invariant
                i <= self.entries.len(),
                k@ == key@,
                self.entries@ == old(self).entries@,
                view_entries(self.entries@) == old_view,
                forall|j: int| 0 <= j < i ==> old_view[j].0 != key@,
                old_view.len() == self.entries@.len(),
                forall|j: int|
                    0 <= j < self.entries@.len() ==> old_view[j] == (
                        self.entries@[j].0@,
                        self.entries@[j].1.ov(),
                    ),
            decreases self.entries.len() - i,
        {
            if text_eq(&self.entries[i].0, key) {
                proof {
                    assert(old_view[i as int].0 == key@);
                    assert(assoc_has(old_view, key@));
                    lemma_assoc_characterization(old_view, key@);
                    assert(assoc_first_index(old_view, key@) == i);
                }
                let ghost pre = self.entries@;
                self.entries[i] = (k, value);
                proof {
                    lemma_view_entries(self.entries@);
                    assert(self.entries@ == pre.update(i as int, (k, value)));
                    assert(assoc_set(old_view, key@, value@) == old_view.update(
                        i as int,
                        (key@, value@),
                    ));
                    assert forall|j: int|
                        0 <= j < old_view.len() implies view_entries(self.entries@)[j]
                        == assoc_set(old_view, key@, value@)[j] by {
                        if j != i {
                            assert(self.entries@[j] == pre[j]);
                        }
                    }
                    assert(view_entries(self.entries@) =~= assoc_set(old_view, key@, value@));
                }
                return ;
            }
            i += 1;
        }
        proof {
            if assoc_has(old_view, key@) {
                let w = choose|w: int| 0 <= w < old_view.len() && old_view[w].0 == key@;
            }
            assert(!assoc_has(old_view, key@));
        }
        self.entries.push((k, value));
        proof {
            lemma_view_entries(self.entries@);
            assert(view_entries(self.entries@) =~= assoc_set(old_view, key@, value@));
        }
    }

    /// Removes every entry bound to `key`: the entries that remain
    /// are exactly those for other keys, in order; other keys stay
    /// bound or unbound as they were.
    pub fn remove(&mut self, key: &str)
        ensures
            final(self)@ == assoc_remove(old(self)@, key@),
            !assoc_has(final(self)@, key@),
            forall|k2: Seq<char>|
                k2 != key@ ==> assoc_has(final(self)@, k2) == assoc_has(old(self)@, k2),
            final(self)@.len() <= old(self)@.len(),
    {
        proof {
            lemma_view_entries(self.entries@);
        }
        let ghost old_view = view_entries(self.entries@);
        let ghost keepp = |e: (Seq<char>, ObjView)| e.0 != key@;
        let mut out: Vec<(String, Object)> = Vec::new();
        let mut i: usize = 0;
        proof {
            assert(old_view.take(0) =~= Seq::<(Seq<char>, ObjView)>::empty());
            reveal(Seq::filter);
        }
        while i < self.entries.len()
            invariant
                i <= self.entries.len(),
                old_view == view_entries(self.entries@),
                old_view.len() == self.entries@.len(),
                forall|j: int|
                    0 <= j < self.entries@.len() ==> old_view[j] == (
                        self.entries@[j].0@,
                        self.entries@[j].1.ov(),
                    ),
                keepp == (|e: (Seq<char>, ObjView)| e.0 != key@),
                view_entries(out@).len() == out@.len(),
                forall|j: int|
                    0 <= j < out@.len() ==> view_entries(out@)[j] == (
                        out@[j].0@,
                        out@[j].1.ov(),
                    ),
                view_entries(out@) == old_view.take(i as int).filter(keepp),
            decreases self.entries.len() - i,
        {
            proof {
                reveal(Seq::filter);
                assert(old_view.take(i + 1).drop_last() =~= old_view.take(i as int));
                assert(old_view.take(i + 1).last() == old_view[i as int]);
            }
            if !text_eq(&self.entries[i].0, key) {
                let ghost prev = out@;
                let key_i = self.entries[i].0.clone();
                let value_i = self.entries[i].1.clone();
                out.push((key_i, value_i));
                proof {
                    lemma_view_entries(out@);
                    lemma_view_entries(prev);
                    assert forall|j: int|
                        0 <= j < prev.len() implies view_entries(out@)[j] == view_entries(
                        prev,
                    )[j] by {
                        assert(out@[j] == prev[j]);
                    }
                    assert(view_entries(out@)[prev.len() as int] == old_view[i as int]);
                    assert(keepp(old_view[i as int]));
                    assert(old_view.take(i + 1).filter(keepp) == old_view.take(i as int).filter(
                        keepp,
                    ).push(old_view[i as int]));
                    assert(view_entries(out@) =~= old_view.take(i + 1).filter(keepp));
                }
            } else {
                proof {
                    assert(!keepp(old_view[i as int]));
                    assert(old_view.take(i + 1).filter(keepp) == old_view.take(i as int).filter(
                        keepp,
                    ));
                }
            }
            i += 1;
        }
        self.entries = out;
        proof {
            assert(old_view.take(old_view.len() as int) =~= old_view);
            let nv = view_entries(self.entries@);
            assert(nv == assoc_remove(old_view, key@));
            if assoc_has(nv, key@) {
                let w = choose|w: int| 0 <= w < nv.len() && nv[w].0 == key@;
                old_view.lemma_filter_pred(keepp, w);
            }
            assert forall|k2: Seq<char>|
                k2 != key@ && assoc_has(old_view, k2) implies assoc_has(nv, k2) by {
                let l = choose|l: int| 0 <= l < old_view.len() && old_view[l].0 == k2;
                old_view.lemma_filter_contains(keepp, l);
                assert(nv.contains(old_view[l]));
                let j = choose|j: int| 0 <= j < nv.len() && nv[j] == old_view[l];
            }
            assert forall|k2: Seq<char>|
                k2 != key@ && assoc_has(nv, k2) implies assoc_has(old_view, k2) by {
                let j = choose|j: int| 0 <= j < nv.len() && nv[j].0 == k2;
                crate::assoc::lemma_filter_elem_member(old_view, keepp, j);
                let w = choose|w: int| 0 <= w < old_view.len() && old_view[w] == nv[j];
            }
            old_view.lemma_filter_len(keepp);
        }
    }
}

/// The structural role of an object inside a document, read from the
/// type tag on its dictionary.
#[derive(Clone, Copy, PartialEq, Eq, Structural, Debug)]
pub enum NodeKind {
    Catalog,
    Pages,
    Page,
    Outline,
    Other,
}

/// The role named by a dictionary's type tag.
pub open spec fn kind_of_entries(es: Seq<(Seq<char>, ObjView)>) -> NodeKind {
    match assoc_lookup(es, "Type"@) {
        Some(t) => match t {
            ObjView::Name(n) => if n == "Catalog"@ {
                NodeKind::Catalog
            } else if n == "Pages"@ {
                NodeKind::Pages
            } else if n == "Page"@ {
                NodeKind::Page
            } else if n == "Outlines"@ || n == "Outline"@ {
                NodeKind::Outline
            } else {
                NodeKind::Other
            },
            _ => NodeKind::Other,
        },
        None => NodeKind::Other,
    }
}

/// The structural role of an object: dictionaries and streams are
/// classified by their type tag, everything else is `Other`.
pub open spec fn spec_kind(v: ObjView) -> NodeKind {
    match v {
        ObjView::Dictionary(es) => kind_of_entries(es),
        ObjView::Stream(es, _) => kind_of_entries(es),
        _ => NodeKind::Other,
    }
}

impl Object {
    /// Classifies this object by its structural role, resolving the
    /// type tag once.
    pub fn kind(&self) -> (r: NodeKind)
        ensures
            r == spec_kind(self@),
    {
        let d: &Dict = match self {
            Object::Dictionary(d) => d,
            Object::Stream(d, _) => d,
            _ => { return NodeKind::Other },
        };
        match d.get("Type") {
            Some(t) => match t {
                Object::Name(n) => {
                    if text_eq(n, "Catalog") {
                        NodeKind::Catalog
                    } else if text_eq(n, "Pages") {
                        NodeKind::Pages
                    } else if text_eq(n, "Page") {
                        NodeKind::Page
                    } else if text_eq(n, "Outlines") {
                        NodeKind::Outline
                    } else if text_eq(n, "Outline") {
                        NodeKind::Outline
                    } else {
                        NodeKind::Other
                    }
                },
                _ => NodeKind::Other,
            },
            None => NodeKind::Other,
        }
    }
}

} // verus!
