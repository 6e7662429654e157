use core::marker::PhantomData;
use vstd::prelude::*;

use crate::functor::{Applicative, Const, Functor, Identity, Monoid};
use crate::prism::{idx, Prism, VecIdx};
use crate::traversal::{
    applied, called_on, concat_all, const_values, identity_models, lemma_compose_unchanged,
    mapped, mconcat, piece, refill_unchanged, Traversal,
};
use crate::json::parse::{span, CharClass};
use crate::util::Compose;

pub mod parse;
pub mod text;

verus! {

/// A JSON value. Numbers are kept as their JSON text.
#[derive(Debug, PartialEq)]
pub enum JsonValue {
    Null,
    Bool(bool),
    Number(String),
    String(String),
    Array(Vec<JsonValue>),
    Object(Vec<(String, JsonValue)>),
}

/// The entries of a JSON object, in order.
pub type JsonMap = Vec<(String, JsonValue)>;

/// The model of a JSON value: texts as character sequences, arrays and
/// objects as sequences.
pub enum JsonModel {
    Null,
    Bool(bool),
    Number(Seq<char>),
    String(Seq<char>),
    Array(Seq<JsonModel>),
    Object(Seq<(Seq<char>, JsonModel)>),
}

/// The model of a JSON value.
pub open spec fn json_model(j: JsonValue) -> JsonModel
    decreases j,
{
    match j {
        JsonValue::Null => JsonModel::Null,
        JsonValue::Bool(b) => JsonModel::Bool(b),
        JsonValue::Number(n) => JsonModel::Number(n@),
        JsonValue::String(s) => JsonModel::String(s@),
        JsonValue::Array(v) => JsonModel::Array(
            Seq::new(
                v@.len(),
                |i: int|
                    {
                        if 0 <= i < v@.len() {
                            proof {
                                assert(decreases_to!(v => v@));
                            }
                            json_model(v@[i])
                        } else {
                            JsonModel::Null
                        }
                    },
            ),
        ),
        JsonValue::Object(m) => JsonModel::Object(
            Seq::new(
                m@.len(),
                |i: int|
                    {
                        if 0 <= i < m@.len() {
                            proof {
                                assert(decreases_to!(m => m@));
                            }
                            (m@[i].0@, json_model(m@[i].1))
                        } else {
                            (Seq::empty(), JsonModel::Null)
                        }
                    },
            ),
        ),
    }
}

impl DeepView for JsonValue {
    type V = JsonModel;

    open spec fn deep_view(&self) -> JsonModel {
        json_model(*self)
    }
}

impl JsonValue {
    /// A copy of the value, with the same model.
    fn copy_value(&self) -> (r: JsonValue)
        ensures
            r.deep_view() == self.deep_view(),
        decreases self,
    {
        match self {
            JsonValue::Null => JsonValue::Null,
            JsonValue::Bool(b) => JsonValue::Bool(*b),
            JsonValue::Number(n) => JsonValue::Number(n.clone()),
            JsonValue::String(s) => JsonValue::String(s.clone()),
            JsonValue::Array(v) => {
                let mut out: Vec<JsonValue> = Vec::new();
                let mut i: usize = 0;
                while i < v.len()
                    invariant
                        *self == JsonValue::Array(*v),
                        i <= v.len(),
                        out@.len() == i,
                        out.deep_view() =~= v.deep_view().take(i as int),
                    decreases v.len() - i,
                {
                    proof {
                        assert(decreases_to!(*self => self->Array_0));
                        assert(decreases_to!(*v => v@));
                        assert(decreases_to!(v@ => v@[i as int]));
                        assert(decreases_to!(*self => v@[i as int]));
                    }
                    let e = v[i].copy_value();
                    let ghost old_out = out.deep_view();
                    let ghost old_vec = out@;
                    out.push(e);
                    i += 1;
                    assert forall|j: int| 0 <= j < i implies #[trigger] out.deep_view()[j]
                        == v.deep_view()[j] by {
                        if j < i - 1 {
                            assert(out@[j] == old_vec[j]);
                            assert(out.deep_view()[j] == old_out[j]);
                        }
                    }
                    assert(out.deep_view() =~= v.deep_view().take(i as int));
                }
                assert(v.deep_view().take(i as int) =~= v.deep_view());
                let r = JsonValue::Array(out);
                proof {
                    lemma_array_model(out);
                    lemma_array_model(*v);
                }
                r
            },
            JsonValue::Object(m) => {
                let mut out: Vec<(String, JsonValue)> = Vec::new();
                let mut i: usize = 0;
                while i < m.len()
                    invariant
                        *self == JsonValue::Object(*m),
                        i <= m.len(),
                        out@.len() == i,
                        out.deep_view() =~= m.deep_view().take(i as int),
                    decreases m.len() - i,
                {
                    proof {
                        assert(decreases_to!(*self => self->Object_0));
                        assert(decreases_to!(*m => m@));
                        assert(decreases_to!(m@ => m@[i as int]));
                        assert(decreases_to!(m@[i as int] => m@[i as int].1));
                        assert(decreases_to!(*self => m@[i as int].1));
                    }
                    let key = m[i].0.clone();
                    let e = m[i].1.copy_value();
                    let ghost old_out = out.deep_view();
                    let ghost old_vec = out@;
                    out.push((key, e));
                    i += 1;
                    assert forall|j: int| 0 <= j < i implies #[trigger] out.deep_view()[j]
                        == m.deep_view()[j] by {
                        if j < i - 1 {
                            assert(out@[j] == old_vec[j]);
                            assert(out.deep_view()[j] == old_out[j]);
                        }
                    }
                    assert(out.deep_view() =~= m.deep_view().take(i as int));
                }
                assert(m.deep_view().take(i as int) =~= m.deep_view());
                let r = JsonValue::Object(out);
                proof {
                    lemma_object_model(out);
                    lemma_object_model(*m);
                }
                r
            },
        }
    }
}

impl Clone for JsonValue {
    fn clone(&self) -> (r: Self)
        ensures
            r.deep_view() == self.deep_view(),
    {
        self.copy_value()
    }
}

/// The model of an array value is the sequence of the models of its elements.
pub proof fn lemma_array_model(v: Vec<JsonValue>)
    ensures
        JsonValue::Array(v).deep_view() == JsonModel::Array(v.deep_view()),
{
    assert(JsonValue::Array(v).deep_view()->Array_0 =~= v.deep_view());
}

/// The model of an object value is the sequence of the models of its entries.
pub proof fn lemma_object_model(m: Vec<(String, JsonValue)>)
    ensures
        JsonValue::Object(m).deep_view() == JsonModel::Object(m.deep_view()),
{
    assert(JsonValue::Object(m).deep_view()->Object_0 =~= m.deep_view());
}

/// The prism onto the entries of a JSON object.
pub struct JObject;

/// The prism onto the elements of a JSON array.
pub struct JArray;

/// The prism onto the text of a JSON string.
pub struct JString;

/// The prism onto the text of a JSON number.
pub struct JNumber;

/// The prism onto a JSON boolean.
pub struct JBool;

/// The prism onto the value of the first entry of an object with a given key.
pub struct MapKey {
    key: String,
}

impl MapKey {
    /// The key the prism looks for.
    pub closed spec fn key_view(&self) -> Seq<char> {
        self.key@
    }
}

/// The first position at or after `i` whose entry has key `k`.
pub open spec fn key_from(m: Seq<(Seq<char>, JsonModel)>, k: Seq<char>, i: int) -> Option<int>
    decreases m.len() - i,
{
    if 0 <= i < m.len() {
        if m[i].0 == k {
            Some(i)
        } else {
            key_from(m, k, i + 1)
        }
    } else {
        None
    }
}

/// The position of the first entry with key `k`.
pub open spec fn key_index(m: Seq<(Seq<char>, JsonModel)>, k: Seq<char>) -> Option<int> {
    key_from(m, k, 0)
}

/// A position found from `i` on lies in `[i, m.len())` and holds the key.
pub proof fn lemma_key_from_range(m: Seq<(Seq<char>, JsonModel)>, k: Seq<char>, i: int)
    requires
        0 <= i,
    ensures
        key_from(m, k, i) matches Some(j) ==> i <= j < m.len() && m[j].0 == k,
    decreases m.len() - i,
{
    if 0 <= i < m.len() && m[i].0 != k {
        lemma_key_from_range(m, k, i + 1);
    }
}

impl MapKey {
    /// The position of the first entry with the key.
    fn find(&self, m: &Vec<(String, JsonValue)>) -> (r: Option<usize>)
        ensures
            match r {
                Some(i) => key_index(m.deep_view(), self.key_view()) == Some(i as int),
                None => key_index(m.deep_view(), self.key_view()) is None,
            },
    {
        let ghost dm = m.deep_view();
        let mut i: usize = 0;
        while i < m.len()
            invariant
                i <= m.len(),
                dm == m.deep_view(),
                key_from(dm, self.key_view(), 0) == key_from(dm, self.key_view(), i as int),
            decreases m.len() - i,
        {
            assert(dm[i as int].0 == m@[i as int].0@);
            if m[i].0 == self.key {
                return Some(i);
            }
            i += 1;
        }
        None
    }
}

impl Traversal for JObject {
    type A = JsonValue;

    type B = Vec<(String, JsonValue)>;

    open spec fn foci(&self, a: JsonModel) -> Seq<Seq<(Seq<char>, JsonModel)>> {
        match a {
            JsonModel::Object(m) => seq![m],
            _ => Seq::empty(),
        }
    }

    open spec fn refill(&self, a: JsonModel, bs: Seq<Seq<(Seq<char>, JsonModel)>>) -> JsonModel {
        match a {
            JsonModel::Object(_) => JsonModel::Object(bs[0]),
            _ => a,
        }
    }

    proof fn lemma_foci_refill(
        &self,
        a: JsonModel,
        bs: Seq<Seq<(Seq<char>, JsonModel)>>,
    ) {
        assert(bs =~= self.foci(self.refill(a, bs)));
    }

    fn f_const<M: Monoid, K: Fn(Vec<(String, JsonValue)>) -> Const<M, Vec<(String, JsonValue)>>>(
        &self,
        k: &K,
        a: JsonValue,
    ) -> (r: Const<M, JsonValue>) {
        let ghost ag = a.deep_view();
        match a {
            JsonValue::Object(o) => {
                proof {
                    lemma_object_model(o);
                }
                assert(self.foci(ag)[0] == o.deep_view());
                assert(self.foci(ag).contains(o.deep_view()));
                let ghost og = o;
                let c = k(o);
                proof {
                    assert(called_on(*k, og.deep_view(), c));
                    let cs = seq![c];
                    assert(applied(*k, self.foci(ag), cs));
                    M::lemma_zero_left(c.0@);
                    assert(const_values(cs).drop_last() =~= Seq::empty());
                    assert(const_values(cs).last() == c.0@);
                    assert(mconcat::<M>(const_values(cs).drop_last()) == M::spec_zero());
                }
                c.fmap(|o: Vec<(String, JsonValue)>| JsonValue::Object(o))
            },
            _ => {
                proof {
                    let cs = Seq::<Const<M, Vec<(String, JsonValue)>>>::empty();
                    assert(applied(*k, self.foci(ag), cs));
                    assert(const_values(cs) =~= Seq::empty());
                }
                Const::pure(a)
            },
        }
    }

    fn f_identity<K: Fn(Vec<(String, JsonValue)>) -> Identity<Vec<(String, JsonValue)>>>(
        &self,
        k: &K,
        a: JsonValue,
    ) -> (r: Identity<JsonValue>) {
        let ghost ag = a.deep_view();
        match a {
            JsonValue::Object(o) => {
                proof {
                    lemma_object_model(o);
                }
                assert(self.foci(ag)[0] == o.deep_view());
                assert(self.foci(ag).contains(o.deep_view()));
                let ghost og = o;
                let c = k(o);
                let ghost cg = c;
                let rebuild = |o: Vec<(String, JsonValue)>| -> (v: JsonValue)
                    ensures
                        v.deep_view() == JsonModel::Object(o.deep_view()),
                    {
                        proof {
                            lemma_object_model(o);
                        }
                        JsonValue::Object(o)
                    };
                let r = c.fmap(rebuild);
                proof {
                    assert(called_on(*k, og.deep_view(), cg));
                    let cs = seq![cg];
                    assert(applied(*k, self.foci(ag), cs));
                    assert(identity_models(cs) =~= seq![cg.0.deep_view()]);
                    assert(mapped(*k, self.foci(ag), identity_models(cs)));
                }
                r
            },
            _ => {
                proof {
                    let cs = Seq::<Identity<Vec<(String, JsonValue)>>>::empty();
                    assert(applied(*k, self.foci(ag), cs));
                    assert(identity_models(cs) =~= Seq::empty());
                    assert(mapped(*k, self.foci(ag), identity_models(cs)));
                }
                Identity::pure(a)
            },
        }
    }
}

impl Prism for JObject {
    proof fn lemma_at_most_one(&self, a: JsonModel) {
    }
}

impl Traversal for JArray {
    type A = JsonValue;

    type B = Vec<JsonValue>;

    open spec fn foci(&self, a: JsonModel) -> Seq<Seq<JsonModel>> {
        match a {
            JsonModel::Array(m) => seq![m],
            _ => Seq::empty(),
        }
    }

    open spec fn refill(&self, a: JsonModel, bs: Seq<Seq<JsonModel>>) -> JsonModel {
        match a {
            JsonModel::Array(_) => JsonModel::Array(bs[0]),
            _ => a,
        }
    }

    proof fn lemma_foci_refill(
        &self,
        a: JsonModel,
        bs: Seq<Seq<JsonModel>>,
    ) {
        assert(bs =~= self.foci(self.refill(a, bs)));
    }

    fn f_const<M: Monoid, K: Fn(Vec<JsonValue>) -> Const<M, Vec<JsonValue>>>(
        &self,
        k: &K,
        a: JsonValue,
    ) -> (r: Const<M, JsonValue>) {
        let ghost ag = a.deep_view();
        match a {
            JsonValue::Array(o) => {
                proof {
                    lemma_array_model(o);
                }
                assert(self.foci(ag)[0] == o.deep_view());
                assert(self.foci(ag).contains(o.deep_view()));
                let ghost og = o;
                let c = k(o);
                proof {
                    assert(called_on(*k, og.deep_view(), c));
                    let cs = seq![c];
                    assert(applied(*k, self.foci(ag), cs));
                    M::lemma_zero_left(c.0@);
                    assert(const_values(cs).drop_last() =~= Seq::empty());
                    assert(const_values(cs).last() == c.0@);
                    assert(mconcat::<M>(const_values(cs).drop_last()) == M::spec_zero());
                }
                c.fmap(|o: Vec<JsonValue>| JsonValue::Array(o))
            },
            _ => {
                proof {
                    let cs = Seq::<Const<M, Vec<JsonValue>>>::empty();
                    assert(applied(*k, self.foci(ag), cs));
                    assert(const_values(cs) =~= Seq::empty());
                }
                Const::pure(a)
            },
        }
    }

    fn f_identity<K: Fn(Vec<JsonValue>) -> Identity<Vec<JsonValue>>>(
        &self,
        k: &K,
        a: JsonValue,
    ) -> (r: Identity<JsonValue>) {
        let ghost ag = a.deep_view();
        match a {
            JsonValue::Array(o) => {
                proof {
                    lemma_array_model(o);
                }
                assert(self.foci(ag)[0] == o.deep_view());
                assert(self.foci(ag).contains(o.deep_view()));
                let ghost og = o;
                let c = k(o);
                let ghost cg = c;
                let rebuild = |o: Vec<JsonValue>| -> (v: JsonValue)
                    ensures
                        v.deep_view() == JsonModel::Array(o.deep_view()),
                    {
                        proof {
                            lemma_array_model(o);
                        }
                        JsonValue::Array(o)
                    };
                let r = c.fmap(rebuild);
                proof {
                    assert(called_on(*k, og.deep_view(), cg));
                    let cs = seq![cg];
                    assert(applied(*k, self.foci(ag), cs));
                    assert(identity_models(cs) =~= seq![cg.0.deep_view()]);
                    assert(mapped(*k, self.foci(ag), identity_models(cs)));
                }
                r
            },
            _ => {
                proof {
                    let cs = Seq::<Identity<Vec<JsonValue>>>::empty();
                    assert(applied(*k, self.foci(ag), cs));
                    assert(identity_models(cs) =~= Seq::empty());
                    assert(mapped(*k, self.foci(ag), identity_models(cs)));
                }
                Identity::pure(a)
            },
        }
    }
}

impl Prism for JArray {
    proof fn lemma_at_most_one(&self, a: JsonModel) {
    }
}

impl Traversal for JString {
    type A = JsonValue;

    type B = String;

    open spec fn foci(&self, a: JsonModel) -> Seq<Seq<char>> {
        match a {
            JsonModel::String(m) => seq![m],
            _ => Seq::empty(),
        }
    }

    open spec fn refill(&self, a: JsonModel, bs: Seq<Seq<char>>) -> JsonModel {
        match a {
            JsonModel::String(_) => JsonModel::String(bs[0]),
            _ => a,
        }
    }

    proof fn lemma_foci_refill(
        &self,
        a: JsonModel,
        bs: Seq<Seq<char>>,
    ) {
        assert(bs =~= self.foci(self.refill(a, bs)));
    }

    fn f_const<M: Monoid, K: Fn(String) -> Const<M, String>>(
        &self,
        k: &K,
        a: JsonValue,
    ) -> (r: Const<M, JsonValue>) {
        let ghost ag = a.deep_view();
        match a {
            JsonValue::String(o) => {
                assert(self.foci(ag)[0] == o.deep_view());
                assert(self.foci(ag).contains(o.deep_view()));
                let ghost og = o;
                let c = k(o);
                proof {
                    assert(called_on(*k, og.deep_view(), c));
                    let cs = seq![c];
                    assert(applied(*k, self.foci(ag), cs));
                    M::lemma_zero_left(c.0@);
                    assert(const_values(cs).drop_last() =~= Seq::empty());
                    assert(const_values(cs).last() == c.0@);
                    assert(mconcat::<M>(const_values(cs).drop_last()) == M::spec_zero());
                }
                c.fmap(|o: String| JsonValue::String(o))
            },
            _ => {
                proof {
                    let cs = Seq::<Const<M, String>>::empty();
                    assert(applied(*k, self.foci(ag), cs));
                    assert(const_values(cs) =~= Seq::empty());
                }
                Const::pure(a)
            },
        }
    }

    fn f_identity<K: Fn(String) -> Identity<String>>(
        &self,
        k: &K,
        a: JsonValue,
    ) -> (r: Identity<JsonValue>) {
        let ghost ag = a.deep_view();
        match a {
            JsonValue::String(o) => {
                assert(self.foci(ag)[0] == o.deep_view());
                assert(self.foci(ag).contains(o.deep_view()));
                let ghost og = o;
                let c = k(o);
                let ghost cg = c;
                let rebuild = |o: String| -> (v: JsonValue)
                    ensures
                        v.deep_view() == JsonModel::String(o@),
                    { JsonValue::String(o) };
                let r = c.fmap(rebuild);
                proof {
                    assert(called_on(*k, og.deep_view(), cg));
                    let cs = seq![cg];
                    assert(applied(*k, self.foci(ag), cs));
                    assert(identity_models(cs) =~= seq![cg.0.deep_view()]);
                    assert(mapped(*k, self.foci(ag), identity_models(cs)));
                }
                r
            },
            _ => {
                proof {
                    let cs = Seq::<Identity<String>>::empty();
                    assert(applied(*k, self.foci(ag), cs));
                    assert(identity_models(cs) =~= Seq::empty());
                    assert(mapped(*k, self.foci(ag), identity_models(cs)));
                }
                Identity::pure(a)
            },
        }
    }
}

impl Prism for JString {
    proof fn lemma_at_most_one(&self, a: JsonModel) {
    }
}

impl Traversal for JNumber {
    type A = JsonValue;

    type B = String;

    open spec fn foci(&self, a: JsonModel) -> Seq<Seq<char>> {
        match a {
            JsonModel::Number(m) => seq![m],
            _ => Seq::empty(),
        }
    }

    open spec fn refill(&self, a: JsonModel, bs: Seq<Seq<char>>) -> JsonModel {
        match a {
            JsonModel::Number(_) => JsonModel::Number(bs[0]),
            _ => a,
        }
    }

    proof fn lemma_foci_refill(
        &self,
        a: JsonModel,
        bs: Seq<Seq<char>>,
    ) {
        assert(bs =~= self.foci(self.refill(a, bs)));
    }

    fn f_const<M: Monoid, K: Fn(String) -> Const<M, String>>(
        &self,
        k: &K,
        a: JsonValue,
    ) -> (r: Const<M, JsonValue>) {
        let ghost ag = a.deep_view();
        match a {
            JsonValue::Number(o) => {
                assert(self.foci(ag)[0] == o.deep_view());
                assert(self.foci(ag).contains(o.deep_view()));
                let ghost og = o;
                let c = k(o);
                proof {
                    assert(called_on(*k, og.deep_view(), c));
                    let cs = seq![c];
                    assert(applied(*k, self.foci(ag), cs));
                    M::lemma_zero_left(c.0@);
                    assert(const_values(cs).drop_last() =~= Seq::empty());
                    assert(const_values(cs).last() == c.0@);
                    assert(mconcat::<M>(const_values(cs).drop_last()) == M::spec_zero());
                }
                c.fmap(|o: String| JsonValue::Number(o))
            },
            _ => {
                proof {
                    let cs = Seq::<Const<M, String>>::empty();
                    assert(applied(*k, self.foci(ag), cs));
                    assert(const_values(cs) =~= Seq::empty());
                }
                Const::pure(a)
            },
        }
    }

    fn f_identity<K: Fn(String) -> Identity<String>>(
        &self,
        k: &K,
        a: JsonValue,
    ) -> (r: Identity<JsonValue>) {
        let ghost ag = a.deep_view();
        match a {
            JsonValue::Number(o) => {
                assert(self.foci(ag)[0] == o.deep_view());
                assert(self.foci(ag).contains(o.deep_view()));
                let ghost og = o;
                let c = k(o);
                let ghost cg = c;
                let rebuild = |o: String| -> (v: JsonValue)
                    ensures
                        v.deep_view() == JsonModel::Number(o@),
                    { JsonValue::Number(o) };
                let r = c.fmap(rebuild);
                proof {
                    assert(called_on(*k, og.deep_view(), cg));
                    let cs = seq![cg];
                    assert(applied(*k, self.foci(ag), cs));
                    assert(identity_models(cs) =~= seq![cg.0.deep_view()]);
                    assert(mapped(*k, self.foci(ag), identity_models(cs)));
                }
                r
            },
            _ => {
                proof {
                    let cs = Seq::<Identity<String>>::empty();
                    assert(applied(*k, self.foci(ag), cs));
                    assert(identity_models(cs) =~= Seq::empty());
                    assert(mapped(*k, self.foci(ag), identity_models(cs)));
                }
                Identity::pure(a)
            },
        }
    }
}

impl Prism for JNumber {
    proof fn lemma_at_most_one(&self, a: JsonModel) {
    }
}

impl Traversal for JBool {
    type A = JsonValue;

    type B = bool;

    open spec fn foci(&self, a: JsonModel) -> Seq<bool> {
        match a {
            JsonModel::Bool(m) => seq![m],
            _ => Seq::empty(),
        }
    }

    open spec fn refill(&self, a: JsonModel, bs: Seq<bool>) -> JsonModel {
        match a {
            JsonModel::Bool(_) => JsonModel::Bool(bs[0]),
            _ => a,
        }
    }

    proof fn lemma_foci_refill(
        &self,
        a: JsonModel,
        bs: Seq<bool>,
    ) {
        assert(bs =~= self.foci(self.refill(a, bs)));
    }

    fn f_const<M: Monoid, K: Fn(bool) -> Const<M, bool>>(
        &self,
        k: &K,
        a: JsonValue,
    ) -> (r: Const<M, JsonValue>) {
        let ghost ag = a.deep_view();
        match a {
            JsonValue::Bool(o) => {
                assert(self.foci(ag)[0] == o.deep_view());
                assert(self.foci(ag).contains(o.deep_view()));
                let ghost og = o;
                let c = k(o);
                proof {
                    assert(called_on(*k, og.deep_view(), c));
                    let cs = seq![c];
                    assert(applied(*k, self.foci(ag), cs));
                    M::lemma_zero_left(c.0@);
                    assert(const_values(cs).drop_last() =~= Seq::empty());
                    assert(const_values(cs).last() == c.0@);
                    assert(mconcat::<M>(const_values(cs).drop_last()) == M::spec_zero());
                }
                c.fmap(|o: bool| JsonValue::Bool(o))
            },
            _ => {
                proof {
                    let cs = Seq::<Const<M, bool>>::empty();
                    assert(applied(*k, self.foci(ag), cs));
                    assert(const_values(cs) =~= Seq::empty());
                }
                Const::pure(a)
            },
        }
    }

    fn f_identity<K: Fn(bool) -> Identity<bool>>(
        &self,
        k: &K,
        a: JsonValue,
    ) -> (r: Identity<JsonValue>) {
        let ghost ag = a.deep_view();
        match a {
            JsonValue::Bool(o) => {
                assert(self.foci(ag)[0] == o.deep_view());
                assert(self.foci(ag).contains(o.deep_view()));
                let ghost og = o;
                let c = k(o);
                let ghost cg = c;
                let rebuild = |o: bool| -> (v: JsonValue)
                    ensures
                        v.deep_view() == JsonModel::Bool(o),
                    { JsonValue::Bool(o) };
                let r = c.fmap(rebuild);
                proof {
                    assert(called_on(*k, og.deep_view(), cg));
                    let cs = seq![cg];
                    assert(applied(*k, self.foci(ag), cs));
                    assert(identity_models(cs) =~= seq![cg.0.deep_view()]);
                    assert(mapped(*k, self.foci(ag), identity_models(cs)));
                }
                r
            },
            _ => {
                proof {
                    let cs = Seq::<Identity<bool>>::empty();
                    assert(applied(*k, self.foci(ag), cs));
                    assert(identity_models(cs) =~= Seq::empty());
                    assert(mapped(*k, self.foci(ag), identity_models(cs)));
                }
                Identity::pure(a)
            },
        }
    }
}

impl Prism for JBool {
    proof fn lemma_at_most_one(&self, a: JsonModel) {
    }
}

impl Traversal for MapKey {
    type A = Vec<(String, JsonValue)>;

    type B = JsonValue;

    open spec fn foci(&self, a: Seq<(Seq<char>, JsonModel)>) -> Seq<JsonModel> {
        match key_index(a, self.key_view()) {
            Some(i) => seq![a[i].1],
            None => Seq::empty(),
        }
    }

    open spec fn refill(
        &self,
        a: Seq<(Seq<char>, JsonModel)>,
        bs: Seq<JsonModel>,
    ) -> Seq<(Seq<char>, JsonModel)> {
        match key_index(a, self.key_view()) {
            Some(i) => a.update(i, (a[i].0, bs[0])),
            None => a,
        }
    }

    proof fn lemma_foci_refill(&self, a: Seq<(Seq<char>, JsonModel)>, bs: Seq<JsonModel>) {
        lemma_key_from_range(a, self.key_view(), 0);
        match key_index(a, self.key_view()) {
            Some(i) => {
                let a2 = a.update(i, (a[i].0, bs[0]));
                assert forall|j: int| 0 <= j < a.len() implies #[trigger] key_from(a2, self.key_view(), j)
                    == key_from(a, self.key_view(), j) by {
                    lemma_key_from_update(a, self.key_view(), i, bs[0], j);
                }
                assert(key_index(a2, self.key_view()) == Some(i));
                assert(bs =~= seq![bs[0]]);
            },
            None => {
                assert(bs =~= Seq::<JsonModel>::empty());
            },
        }
    }

    fn f_const<M: Monoid, K: Fn(JsonValue) -> Const<M, JsonValue>>(
        &self,
        k: &K,
        a: Vec<(String, JsonValue)>,
    ) -> (r: Const<M, Vec<(String, JsonValue)>>) {
        let ghost ag = a.deep_view();
        let mut m = a;
        match self.find(&m) {
            Some(i) => {
                proof {
                    lemma_key_from_range(ag, self.key_view(), 0);
                }
                let entry = m.remove(i);
                let v = entry.1;
                assert(v.deep_view() == ag[i as int].1);
                assert(self.foci(ag)[0] == v.deep_view());
                assert(self.foci(ag).contains(v.deep_view()));
                let ghost vg = v;
                let c = k(v);
                proof {
                    assert(called_on(*k, vg.deep_view(), c));
                    let cs = seq![c];
                    assert(applied(*k, self.foci(ag), cs));
                    M::lemma_zero_left(c.0@);
                    assert(const_values(cs).drop_last() =~= Seq::empty());
                    assert(const_values(cs).last() == c.0@);
                    assert(mconcat::<M>(const_values(cs).drop_last()) == M::spec_zero());
                }
                Const(c.0, PhantomData)
            },
            None => {
                proof {
                    let cs = Seq::<Const<M, JsonValue>>::empty();
                    assert(applied(*k, self.foci(ag), cs));
                    assert(const_values(cs) =~= Seq::empty());
                }
                Const::pure(m)
            },
        }
    }

    fn f_identity<K: Fn(JsonValue) -> Identity<JsonValue>>(
        &self,
        k: &K,
        a: Vec<(String, JsonValue)>,
    ) -> (r: Identity<Vec<(String, JsonValue)>>) {
        let ghost ag = a.deep_view();
        let mut m = a;
        match self.find(&m) {
            Some(i) => {
                proof {
                    lemma_key_from_range(ag, self.key_view(), 0);
                }
                let ghost m0 = m@;
                let entry = m.remove(i);
                let (key, v) = entry;
                assert(v.deep_view() == ag[i as int].1);
                assert(key@ == ag[i as int].0);
                assert(self.foci(ag)[0] == v.deep_view());
                assert(self.foci(ag).contains(v.deep_view()));
                let ghost vg = v;
                let c = k(v);
                let ghost cg = c;
                m.insert(i, (key, c.0));
                proof {
                    assert(called_on(*k, vg.deep_view(), cg));
                    let cs = seq![cg];
                    assert(applied(*k, self.foci(ag), cs));
                    assert(identity_models(cs) =~= seq![cg.0.deep_view()]);
                    assert(m@ =~= m0.update(i as int, m@[i as int]));
                    assert(m.deep_view() =~= ag.update(i as int, (ag[i as int].0, cg.0.deep_view())));
                    assert(mapped(*k, self.foci(ag), identity_models(cs)));
                }
                Identity(m)
            },
            None => {
                proof {
                    let cs = Seq::<Identity<JsonValue>>::empty();
                    assert(applied(*k, self.foci(ag), cs));
                    assert(identity_models(cs) =~= Seq::empty());
                    assert(mapped(*k, self.foci(ag), identity_models(cs)));
                }
                Identity::pure(m)
            },
        }
    }
}

impl Prism for MapKey {
    proof fn lemma_at_most_one(&self, a: Seq<(Seq<char>, JsonModel)>) {
    }
}

/// The prism onto the value at `key` in a JSON object.
pub fn object_key(key: &str) -> (r: Compose<JObject, MapKey>)
    ensures
        r.1.key_view() == key@,
{
    Compose(JObject, MapKey { key: key.to_owned() })
}

/// The prism onto the element at position `x` of a JSON array.
pub fn arr_idx(x: usize) -> (r: Compose<JArray, VecIdx<JsonValue>>)
    ensures
        r.1.position() == x,
{
    Compose(JArray, idx(x))
}

/// A sequence of zero or one element.
pub open spec fn option_seq<T>(o: Option<T>) -> Seq<T> {
    match o {
        Some(x) => seq![x],
        None => Seq::empty(),
    }
}

/// The value of the first entry with key `k`, when `a` is an object that has one.
pub open spec fn key_focus(a: JsonModel, k: Seq<char>) -> Option<JsonModel> {
    match a {
        JsonModel::Object(m) => match key_index(m, k) {
            Some(i) => Some(m[i].1),
            None => None,
        },
        _ => None,
    }
}

/// `a` with the value of the first entry with key `k` replaced by `v`, when
/// `a` is an object that has one; otherwise `a`.
pub open spec fn key_put(a: JsonModel, k: Seq<char>, v: JsonModel) -> JsonModel {
    match a {
        JsonModel::Object(m) => match key_index(m, k) {
            Some(i) => JsonModel::Object(m.update(i, (m[i].0, v))),
            None => a,
        },
        _ => a,
    }
}

/// The element at position `i`, when `a` is an array that long.
pub open spec fn index_focus(a: JsonModel, i: usize) -> Option<JsonModel> {
    match a {
        JsonModel::Array(s) => if i < s.len() {
            Some(s[i as int])
        } else {
            None
        },
        _ => None,
    }
}

/// `a` with the element at position `i` replaced by `v`, when `a`
/// is an array with an element at `i`; otherwise `a`.
pub open spec fn index_put(a: JsonModel, i: usize, v: JsonModel) -> JsonModel {
    match a {
        JsonModel::Array(s) => if i < s.len() {
            JsonModel::Array(s.update(i as int, v))
        } else {
            a
        },
        _ => a,
    }
}

proof fn lemma_compose_single<T1: Traversal, T2: Traversal<A = T1::B>>(
    p: Compose<T1, T2>,
    a: <T1::A as DeepView>::V,
    bs: Seq<<T2::B as DeepView>::V>,
)
    requires
        p.0.foci(a).len() == 1,
        bs.len() == p.1.foci(p.0.foci(a)[0]).len(),
    ensures
        p.foci(a) == p.1.foci(p.0.foci(a)[0]),
        p.refill(a, bs) == p.0.refill(a, seq![p.1.refill(p.0.foci(a)[0], bs)]),
{
    let outer = p.0.foci(a);
    let ps = outer.map_values(|b: <T1::B as DeepView>::V| p.1.foci(b));
    assert(ps =~= seq![p.1.foci(outer[0])]);
    assert(ps.drop_last() =~= Seq::<Seq<<T2::B as DeepView>::V>>::empty());
    assert(concat_all(ps.drop_last()) == Seq::<<T2::B as DeepView>::V>::empty());
    assert(ps.last() == p.1.foci(outer[0]));
    assert(concat_all(ps) == concat_all(ps.drop_last()) + ps.last());
    assert(concat_all(ps) =~= p.1.foci(outer[0]));
    assert(ps.take(0) =~= Seq::<Seq<<T2::B as DeepView>::V>>::empty());
    assert(ps.take(1) =~= ps);
    assert(piece(bs, ps, 0) =~= bs);
    assert(Seq::new(outer.len(), |i: int| p.1.refill(outer[i], piece(bs, ps, i))) =~= seq![
        p.1.refill(outer[0], bs),
    ]);
}

proof fn lemma_compose_none<T1: Traversal, T2: Traversal<A = T1::B>>(
    p: Compose<T1, T2>,
    a: <T1::A as DeepView>::V,
)
    requires
        p.0.foci(a).len() == 0,
    ensures
        p.foci(a) == Seq::<<T2::B as DeepView>::V>::empty(),
        p.refill(a, Seq::empty()) == p.0.refill(a, Seq::empty()),
{
    let outer = p.0.foci(a);
    let ps = outer.map_values(|b: <T1::B as DeepView>::V| p.1.foci(b));
    assert(ps =~= Seq::<Seq<<T2::B as DeepView>::V>>::empty());
    assert(Seq::new(
        outer.len(),
        |i: int| p.1.refill(outer[i], piece(Seq::<<T2::B as DeepView>::V>::empty(), ps, i)),
    ) =~= Seq::<<T1::B as DeepView>::V>::empty());
}

/// The prism of `object_key(k)` focuses on `key_focus(a, k)` and puts back with `key_put`.
pub proof fn lemma_object_key_model(p: Compose<JObject, MapKey>, a: JsonModel, v: JsonModel)
    ensures
        p.foci(a) == option_seq(key_focus(a, p.1.key_view())),
        key_focus(a, p.1.key_view()) is Some ==> p.refill(a, seq![v]) == key_put(
            a,
            p.1.key_view(),
            v,
        ),
        key_focus(a, p.1.key_view()) is None ==> p.refill(a, Seq::empty()) == a,
{
    match a {
        JsonModel::Object(m) => {
            if key_focus(a, p.1.key_view()) is Some {
                lemma_compose_single(p, a, seq![v]);
            } else {
                lemma_compose_single(p, a, Seq::empty());
            }
        },
        _ => {
            lemma_compose_none(p, a);
        },
    }
}

/// The prism of `arr_idx(i)` focuses on `index_focus(a, i)` and puts back with `index_put`.
pub proof fn lemma_arr_idx_model(p: Compose<JArray, VecIdx<JsonValue>>, a: JsonModel, v: JsonModel)
    ensures
        p.foci(a) == option_seq(index_focus(a, p.1.position())),
        index_focus(a, p.1.position()) is Some ==> p.refill(a, seq![v]) == index_put(
            a,
            p.1.position(),
            v,
        ),
        index_focus(a, p.1.position()) is None ==> p.refill(a, Seq::empty()) == a,
{
    match a {
        JsonModel::Array(s) => {
            if index_focus(a, p.1.position()) is Some {
                lemma_compose_single(p, a, seq![v]);
            } else {
                lemma_compose_single(p, a, Seq::empty());
            }
        },
        _ => {
            lemma_compose_none(p, a);
        },
    }
}

/// Replacing the value of the first entry with key `k` keeps it the first one.
pub proof fn lemma_key_from_update(
    m: Seq<(Seq<char>, JsonModel)>,
    k: Seq<char>,
    i: int,
    v: JsonModel,
    j: int,
)
    requires
        0 <= i < m.len(),
        m[i].0 == k,
    ensures
        key_from(m.update(i, (m[i].0, v)), k, j) == key_from(m, k, j),
    decreases m.len() - j,
{
    if 0 <= j < m.len() {
        lemma_key_from_update(m, k, i, v, j + 1);
    }
}

} // verus!

verus! {

/// The keys of the entries of an object, in order.
pub open spec fn object_keys(m: Seq<(Seq<char>, JsonModel)>) -> Seq<Seq<char>> {
    m.map_values(|e: (Seq<char>, JsonModel)| e.0)
}

/// No two entries have the same key (as in an object read from JSON text into a map).
pub open spec fn keys_distinct(m: Seq<(Seq<char>, JsonModel)>) -> bool {
    forall|i: int, j: int| 0 <= i < j < m.len() ==> m[i].0 != m[j].0
}

/// Where the integer part of a number text starting at `i` ends: at least one
/// digit, and no leading zero.
pub open spec fn number_int_end(t: Seq<char>, i: int) -> Option<int> {
    let n = span(t, i, CharClass::Digit);
    if n >= 1 && (t[i] != '0' || n == 1) {
        Some(i + n)
    } else {
        None
    }
}

/// Where an optional fraction (`.` and at least one digit) starting at `i` ends.
pub open spec fn number_frac_end(t: Seq<char>, i: int) -> Option<int> {
    if i < t.len() && t[i] == '.' {
        let n = span(t, i + 1, CharClass::Digit);
        if n >= 1 {
            Some(i + 1 + n)
        } else {
            None
        }
    } else {
        Some(i)
    }
}

/// Where an optional exponent (`e` or `E`, an optional sign, at least one
/// digit) starting at `i` ends.
pub open spec fn number_exp_end(t: Seq<char>, i: int) -> Option<int> {
    if i < t.len() && (t[i] == 'e' || t[i] == 'E') {
        let j = if i + 1 < t.len() && (t[i + 1] == '+' || t[i + 1] == '-') {
            i + 2
        } else {
            i + 1
        };
        let n = span(t, j, CharClass::Digit);
        if n >= 1 {
            Some(j + n)
        } else {
            None
        }
    } else {
        Some(i)
    }
}

/// `t` is the text of a JSON number: an optional `-`, an integer part, an
/// optional fraction and an optional exponent, and nothing else.
pub open spec fn is_json_number(t: Seq<char>) -> bool {
    let start = if t.len() > 0 && t[0] == '-' {
        1int
    } else {
        0int
    };
    match number_int_end(t, start) {
        Some(a) => match number_frac_end(t, a) {
            Some(b) => number_exp_end(t, b) == Some(t.len() as int),
            None => false,
        },
        None => false,
    }
}

/// A well-formed JSON value: every number is the text of a JSON number and
/// no object has two entries with the same key, at every depth.
pub open spec fn json_wf(j: JsonModel) -> bool
    decreases j,
{
    match j {
        JsonModel::Number(t) => is_json_number(t),
        JsonModel::Array(s) => forall|i: int| 0 <= i < s.len() ==> json_wf(#[trigger] s[i]),
        JsonModel::Object(m) => keys_distinct(m) && forall|i: int|
            0 <= i < m.len() ==> json_wf(#[trigger] m[i].1),
        _ => true,
    }
}

/// Law: updating a number through `JNumber` keeps a value well-formed exactly
/// when each new text is the text of a JSON number.
pub proof fn lemma_jnumber_wf(n: &JNumber, a: JsonModel, bs: Seq<Seq<char>>)
    requires
        json_wf(a),
        bs.len() == n.foci(a).len(),
    ensures
        json_wf(n.refill(a, bs)) <==> forall|i: int| 0 <= i < bs.len() ==> is_json_number(
            #[trigger] bs[i],
        ),
{
}

proof fn lemma_key_from_none(m: Seq<(Seq<char>, JsonModel)>, k: Seq<char>, i: int)
    requires
        0 <= i,
        key_from(m, k, i) is None,
    ensures
        forall|j: int| i <= j < m.len() ==> m[j].0 != k,
    decreases m.len() - i,
{
    if i < m.len() {
        lemma_key_from_none(m, k, i + 1);
    }
}

/// Sets the entry for `key` in the entries of an object to `value`, as
/// inserting into a map does: the first entry with the key gets the new value
/// in place, or else a new entry goes at the end.
pub fn object_insert(m: &mut Vec<(String, JsonValue)>, key: String, value: JsonValue)
    ensures
        match key_index(old(m).deep_view(), key@) {
            Some(i) => final(m).deep_view() == old(m).deep_view().update(
                i,
                (key@, value.deep_view()),
            ),
            None => final(m).deep_view() == old(m).deep_view().push((key@, value.deep_view())),
        },
        keys_distinct(old(m).deep_view()) ==> keys_distinct(final(m).deep_view()),
{
    let ghost dm = m.deep_view();
    let ghost kv = key@;
    let ghost vv = value.deep_view();
    let mut i: usize = 0;
    while i < m.len()
        invariant
            i <= m.len(),
            dm == m.deep_view(),
            dm == old(m).deep_view(),
            kv == key@,
            vv == value.deep_view(),
            key_from(dm, kv, 0) == key_from(dm, kv, i as int),
        decreases m.len() - i,
    {
        assert(dm[i as int].0 == m@[i as int].0@);
        if m[i].0 == key {
            proof {
                lemma_key_from_range(dm, kv, 0);
            }
            assert(dm[i as int].0 == kv);
            assert(key_from(dm, kv, i as int) == Some(i as int));
            let ghost m0 = m@;
            let _old = m.remove(i);
            let entry = (key, value);
            assert(entry.0@ == kv && entry.1.deep_view() == vv);
            m.insert(i, entry);
            proof {
                assert(m@ =~= m0.update(i as int, m@[i as int]));
                assert(m@[i as int].0@ == kv);
                assert(m@[i as int].1.deep_view() == vv);
                assert forall|j: int| 0 <= j < m@.len() implies #[trigger] m.deep_view()[j]
                    == dm.update(i as int, (kv, vv))[j] by {
                    if j != i {
                        assert(m@[j] == m0[j]);
                    }
                }
                assert(m.deep_view() =~= dm.update(i as int, (kv, vv)));
                assert(object_keys(m.deep_view()) =~= object_keys(dm));
                if keys_distinct(dm) {
                    assert forall|p: int, q: int| 0 <= p < q < m.deep_view().len() implies
                        m.deep_view()[p].0 != m.deep_view()[q].0 by {
                        assert(object_keys(m.deep_view())[p] == object_keys(dm)[p]);
                        assert(object_keys(m.deep_view())[q] == object_keys(dm)[q]);
                    }
                }
            }
            return;
        }
        i += 1;
    }
    proof {
        lemma_key_from_none(dm, kv, 0);
    }
    m.push((key, value));
    assert(m.deep_view() =~= dm.push((kv, vv)));
}

/// Law: writing through an object key keeps the keys of the object, in order
/// (so distinct keys stay distinct).
pub proof fn lemma_key_put_keeps_keys(m: Seq<(Seq<char>, JsonModel)>, k: Seq<char>, v: JsonModel)
    ensures
        key_put(JsonModel::Object(m), k, v) matches JsonModel::Object(m2) && object_keys(m2)
            == object_keys(m),
        keys_distinct(m) ==> (key_put(JsonModel::Object(m), k, v) matches JsonModel::Object(m2)
            && keys_distinct(m2)),
{
    match key_index(m, k) {
        Some(i) => {
            lemma_key_from_range(m, k, 0);
            let m2 = m.update(i, (m[i].0, v));
            assert(object_keys(m2) =~= object_keys(m));
        },
        None => {},
    }
}

proof fn lemma_key_from_distinct(m: Seq<(Seq<char>, JsonModel)>, k: Seq<char>, i: int, j: int)
    requires
        keys_distinct(m),
        0 <= j <= i < m.len(),
        m[i].0 == k,
    ensures
        key_from(m, k, j) == Some(i),
    decreases i - j,
{
    if j < i {
        lemma_key_from_distinct(m, k, i, j + 1);
    }
}

/// Law: in an object with distinct keys, the key prism finds the entry with
/// the key, wherever it stands.
pub proof fn lemma_key_focus_distinct(m: Seq<(Seq<char>, JsonModel)>, k: Seq<char>, i: int)
    requires
        keys_distinct(m),
        0 <= i < m.len(),
        m[i].0 == k,
    ensures
        key_index(m, k) == Some(i),
        key_focus(JsonModel::Object(m), k) == Some(m[i].1),
{
    lemma_key_from_distinct(m, k, i, 0);
}

/// The object, array, string, number and boolean prisms put back what they found unchanged.
pub proof fn lemma_json_prisms_unchanged(o: &JObject, v: &JArray, s: &JString, n: &JNumber, b: &JBool)
    ensures
        refill_unchanged(o),
        refill_unchanged(v),
        refill_unchanged(s),
        refill_unchanged(n),
        refill_unchanged(b),
{
}

/// The key prism puts back what it found unchanged.
pub proof fn lemma_map_key_unchanged(k: &MapKey)
    ensures
        refill_unchanged(k),
{
    assert forall|m: Seq<(Seq<char>, JsonModel)>| #[trigger] k.refill(m, k.foci(m)) == m by {
        match key_index(m, k.key_view()) {
            Some(i) => {
                lemma_key_from_range(m, k.key_view(), 0);
                assert(m.update(i, (m[i].0, m[i].1)) =~= m);
            },
            None => {},
        }
    }
}

/// Law (`over` with the identity on an object key): `object_key(k)` puts back
/// what it found unchanged.
pub proof fn lemma_object_key_unchanged(p: &Compose<JObject, MapKey>)
    ensures
        refill_unchanged(p),
{
    lemma_json_prisms_unchanged(&p.0, &JArray, &JString, &JNumber, &JBool);
    lemma_map_key_unchanged(&p.1);
    lemma_compose_unchanged(p);
}

/// The position prism puts back what it found unchanged.
pub proof fn lemma_vec_idx_unchanged<X: DeepView>(t: &VecIdx<X>)
    ensures
        refill_unchanged(t),
{
    assert forall|s: Seq<X::V>| #[trigger] t.refill(s, t.foci(s)) == s by {
        if t.position() < s.len() {
            assert(s.update(t.position() as int, s[t.position() as int]) =~= s);
        }
    }
}

/// Law (`over` with the identity on an array position): `arr_idx(i)` puts
/// back what it found unchanged.
pub proof fn lemma_arr_idx_unchanged(p: &Compose<JArray, VecIdx<JsonValue>>)
    ensures
        refill_unchanged(p),
{
    lemma_json_prisms_unchanged(&JObject, &p.0, &JString, &JNumber, &JBool);
    lemma_vec_idx_unchanged(&p.1);
    lemma_compose_unchanged(p);
}

} // verus!

verus! {

/// Law (array positions): `arr_idx(i)` finds the element at position `i` of
/// an array that long, and nothing otherwise (nor in a value that is not an
/// array); putting a value back replaces exactly that element.
pub proof fn law_arr_idx_selects_position(
    p: Compose<JArray, VecIdx<JsonValue>>,
    s: Seq<JsonModel>,
    v: JsonModel,
)
    ensures
        p.1.position() < s.len() ==> p.foci(JsonModel::Array(s)) == seq![s[p.1.position() as int]]
            && p.refill(JsonModel::Array(s), seq![v]) == JsonModel::Array(
            s.update(p.1.position() as int, v),
        ),
        p.1.position() >= s.len() ==> p.foci(JsonModel::Array(s)).len() == 0,
        p.foci(JsonModel::Null).len() == 0,
{
    lemma_arr_idx_model(p, JsonModel::Array(s), v);
    lemma_arr_idx_model(p, JsonModel::Null, v);
}

} // verus!

verus! {

proof fn lemma_key_from_first(m: Seq<(Seq<char>, JsonModel)>, k: Seq<char>, i: int, j: int)
    requires
        0 <= j <= i < m.len(),
        m[i].0 == k,
        forall|q: int| j <= q < i ==> m[q].0 != k,
    ensures
        key_from(m, k, j) == Some(i),
    decreases i - j,
{
    if j < i {
        lemma_key_from_first(m, k, i, j + 1);
    }
}

/// Law (object keys): the key prism finds the value of the first entry with
/// the key, and nothing in an object without such an entry.
pub proof fn law_key_focus_first(m: Seq<(Seq<char>, JsonModel)>, k: Seq<char>, i: int)
    ensures
        (0 <= i < m.len() && m[i].0 == k && forall|q: int| 0 <= q < i ==> m[q].0 != k) ==> key_focus(
            JsonModel::Object(m),
            k,
        ) == Some(m[i].1),
        (forall|q: int| 0 <= q < m.len() ==> m[q].0 != k) ==> key_focus(JsonModel::Object(m), k)
            is None,
{
    if 0 <= i < m.len() && m[i].0 == k && forall|q: int| 0 <= q < i ==> m[q].0 != k {
        lemma_key_from_first(m, k, i, 0);
    }
    if forall|q: int| 0 <= q < m.len() ==> m[q].0 != k {
        lemma_key_from_range(m, k, 0);
    }
}

} // verus!

verus! {

/// Law (kind prisms): each kind prism finds the contents of a value of its
/// kind, puts new contents back into a value of that kind, and finds nothing
/// in a value of another kind (here `null`).
pub proof fn law_kind_prisms(
    o: &JObject,
    v: &JArray,
    s: &JString,
    n: &JNumber,
    b: &JBool,
    m: Seq<(Seq<char>, JsonModel)>,
    e: Seq<JsonModel>,
    t: Seq<char>,
    x: bool,
)
    ensures
        o.foci(JsonModel::Object(m)) == seq![m],
        o.refill(JsonModel::Object(Seq::empty()), seq![m]) == JsonModel::Object(m),
        o.foci(JsonModel::Null).len() == 0,
        v.foci(JsonModel::Array(e)) == seq![e],
        v.refill(JsonModel::Array(Seq::empty()), seq![e]) == JsonModel::Array(e),
        v.foci(JsonModel::Null).len() == 0,
        s.foci(JsonModel::String(t)) == seq![t],
        s.refill(JsonModel::String(Seq::empty()), seq![t]) == JsonModel::String(t),
        s.foci(JsonModel::Null).len() == 0,
        n.foci(JsonModel::Number(t)) == seq![t],
        n.refill(JsonModel::Number(Seq::empty()), seq![t]) == JsonModel::Number(t),
        n.foci(JsonModel::Null).len() == 0,
        b.foci(JsonModel::Bool(x)) == seq![x],
        b.refill(JsonModel::Bool(!x), seq![x]) == JsonModel::Bool(x),
        b.foci(JsonModel::Null).len() == 0,
{
}

} // verus!
