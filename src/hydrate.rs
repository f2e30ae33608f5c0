use vstd::prelude::*;

use crate::keys::{key_before, key_less};
use crate::laws::lemma_merged_wf;
use crate::value::{copy_value, json_of, lemma_object_model, members_of, Json, Value};

verus! {

/// A string value that, standing in an item's object, removes the base member
/// of the same key instead of being merged with it.
pub const MAGIC_MARKER: &'static str = "𒍟※";

/// Whether a value is the removal marker.
pub open spec fn is_marker(v: Json) -> bool {
    v matches Json::Text(s) && s == MAGIC_MARKER@
}

/// The result of hydrating `item` from `base`, where a structural mismatch leaves
/// the item's node as it is: objects merge member by member, arrays of one length
/// merge position by position, and anything else keeps the item's value.
pub open spec fn merged(item: Json, base: Json) -> Json
    decreases base, 0nat,
{
    match item {
        Json::Object(im) => match base {
            Json::Object(bm) => Json::Object(merged_members(im, bm)),
            _ => item,
        },
        Json::Array(ia) => match base {
            Json::Array(ba) => if ia.len() == ba.len() {
                Json::Array(
                    Seq::new(
                        ia.len(),
                        |i: int|
                            if 0 <= i < ba.len() {
                                merged(ia[i], ba[i])
                            } else {
                                Json::Null
                            },
                    ),
                )
            } else {
                item
            },
            _ => item,
        },
        _ => item,
    }
}

/// Merges two member lists sorted by key: a key of the item alone is kept, a key
/// of the base alone is taken over, and a key of both is dropped when the item
/// holds the marker there and merged otherwise.
pub open spec fn merged_members(im: Seq<(Seq<char>, Json)>, bm: Seq<(Seq<char>, Json)>) -> Seq<
    (Seq<char>, Json),
>
    decreases bm, im.len(),
{
    if bm.len() == 0 {
        im
    } else if im.len() == 0 {
        bm
    } else if im[0].0 == bm[0].0 {
        let rest = merged_members(im.subrange(1, im.len() as int), bm.subrange(1, bm.len() as int));
        if is_marker(im[0].1) {
            rest
        } else {
            seq![(im[0].0, merged(im[0].1, bm[0].1))] + rest
        }
    } else if key_less(im[0].0, bm[0].0) {
        seq![im[0]] + merged_members(im.subrange(1, im.len() as int), bm)
    } else {
        seq![bm[0]] + merged_members(im, bm.subrange(1, bm.len() as int))
    }
}

/// The first place, in the order in which hydration visits them, where the item
/// holds an object or an array and the base holds something else: the pair of
/// values found there.
pub open spec fn mismatch(item: Json, base: Json) -> Option<(Json, Json)>
    decreases base, 0nat,
{
    match item {
        Json::Object(im) => match base {
            Json::Object(bm) => mismatch_members(im, bm),
            _ => Some((item, base)),
        },
        Json::Array(ia) => match base {
            Json::Array(ba) => if ia.len() == ba.len() {
                mismatch_items(ia, ba)
            } else {
                None
            },
            _ => Some((item, base)),
        },
        _ => None,
    }
}

/// The first mismatch of two arrays, position by position.
pub open spec fn mismatch_items(ia: Seq<Json>, ba: Seq<Json>) -> Option<(Json, Json)>
    decreases ba, ia.len(),
{
    if ia.len() == 0 || ba.len() == 0 {
        None
    } else {
        match mismatch(ia[0], ba[0]) {
            Some(p) => Some(p),
            None => mismatch_items(ia.subrange(1, ia.len() as int), ba.subrange(1, ba.len() as int)),
        }
    }
}

/// The first mismatch under the keys that two sorted member lists share, skipping
/// the keys that the item marks for removal.
pub open spec fn mismatch_members(im: Seq<(Seq<char>, Json)>, bm: Seq<(Seq<char>, Json)>) -> Option<
    (Json, Json),
>
    decreases bm, im.len(),
{
    if bm.len() == 0 || im.len() == 0 {
        None
    } else if im[0].0 == bm[0].0 {
        let rest = mismatch_members(im.subrange(1, im.len() as int), bm.subrange(1, bm.len() as int));
        if is_marker(im[0].1) {
            rest
        } else {
            match mismatch(im[0].1, bm[0].1) {
                Some(p) => Some(p),
                None => rest,
            }
        }
    } else if key_less(im[0].0, bm[0].0) {
        mismatch_members(im.subrange(1, im.len() as int), bm)
    } else {
        mismatch_members(im, bm.subrange(1, bm.len() as int))
    }
}

proof fn lemma_members_remove_first(m: Seq<(String, Value)>)
    requires
        m.len() > 0,
    ensures
        members_of(m.remove(0)) == members_of(m).subrange(1, m.len() as int),
        members_of(m)[0] == (m[0].0@, json_of(m[0].1)),
{
    assert(members_of(m.remove(0)) =~= members_of(m).subrange(1, m.len() as int));
}

proof fn lemma_members_push(m: Seq<(String, Value)>, e: (String, Value))
    ensures
        members_of(m.push(e)) == members_of(m).push((e.0@, json_of(e.1))),
{
    assert(members_of(m.push(e)) =~= members_of(m).push((e.0@, json_of(e.1))));
}

/// Whether a value is the removal marker.
fn is_marker_value(v: &Value) -> (r: bool)
    ensures
        r == is_marker(v@),
{
    match v {
        Value::String(s) => {
            let marker: String = MAGIC_MARKER.to_owned();
            *s == marker
        },
        _ => false,
    }
}

/// Hydrates `item` from `base`; where their shapes do not match, the item's node
/// is kept.
fn merge_value(item: Value, base: Value) -> (r: Value)
    ensures
        r@ == merged(item@, base@),
    decreases base,
{
    let ghost i0 = item;
    let ghost b0 = base;
    match item {
        Value::Object(im) => match base {
            Value::Object(bm) => {
                let ghost gi = members_of(im@);
                let ghost gb = members_of(bm@);
                let ghost bv0 = bm;
                proof {
                    lemma_object_model(im);
                    lemma_object_model(bm);
                }
                let mut im = im;
                let mut bm = bm;
                let mut out: Vec<(String, Value)> = Vec::new();
                assert(members_of(out@) + merged_members(gi, gb) =~= merged_members(gi, gb));
                while im.len() > 0 || bm.len() > 0
                    invariant
                        merged_members(gi, gb) == members_of(out@) + merged_members(
                            members_of(im@),
                            members_of(bm@),
                        ),
                        b0 == Value::Object(bv0),
                        b0 == base,
                        bm@.len() <= bv0@.len(),
                        bm@ == bv0@.subrange(bv0@.len() - bm@.len(), bv0@.len() as int),
                    decreases im@.len() + bm@.len(),
                {
                    let ghost om = members_of(im@);
                    let ghost ob = members_of(bm@);
                    let ghost oo = members_of(out@);
                    if bm.len() == 0 {
                        proof {
                            lemma_members_remove_first(im@);
                        }
                        let e = im.remove(0);
                        proof {
                            lemma_members_push(out@, e);
                        }
                        out.push(e);
                        assert(oo + om =~= members_of(out@) + members_of(im@));
                    } else if im.len() == 0 {
                        proof {
                            lemma_members_remove_first(bm@);
                        }
                        let e = bm.remove(0);
                        proof {
                            lemma_members_push(out@, e);
                        }
                        out.push(e);
                        assert(oo + ob =~= members_of(out@) + members_of(bm@));
                        assert(bm@ =~= bv0@.subrange(bv0@.len() - bm@.len(), bv0@.len() as int));
                    } else if im[0].0 == bm[0].0 {
                        proof {
                            lemma_members_remove_first(im@);
                            lemma_members_remove_first(bm@);
                        }
                        let (k, iv) = im.remove(0);
                        let (_bk, bv) = bm.remove(0);
                        assert(bm@ =~= bv0@.subrange(bv0@.len() - bm@.len(), bv0@.len() as int));
                        if !is_marker_value(&iv) {
                            proof {
                                assert(bv == bv0@[bv0@.len() - bm@.len() - 1].1);
                                let k = bv0@.len() - bm@.len() - 1;
                                assert(decreases_to!(b0 => b0->Object_0));
                                assert(decreases_to!(bv0 => bv0@));
                                assert(decreases_to!(bv0@ => bv0@[k]));
                                assert(decreases_to!(bv0@[k] => bv0@[k].1));
                                assert(decreases_to!(b0 => bv));
                            }
                            let v = merge_value(iv, bv);
                            proof {
                                lemma_members_push(out@, (k, v));
                            }
                            out.push((k, v));
                            assert(members_of(out@) + merged_members(members_of(im@), members_of(bm@))
                                =~= oo + merged_members(om, ob));
                        }
                    } else if key_before(&im[0].0, &bm[0].0) {
                        proof {
                            lemma_members_remove_first(im@);
                        }
                        let e = im.remove(0);
                        proof {
                            lemma_members_push(out@, e);
                        }
                        out.push(e);
                        assert(members_of(out@) + merged_members(members_of(im@), members_of(bm@))
                            =~= oo + merged_members(om, ob));
                    } else {
                        proof {
                            lemma_members_remove_first(bm@);
                        }
                        let e = bm.remove(0);
                        proof {
                            lemma_members_push(out@, e);
                        }
                        out.push(e);
                        assert(bm@ =~= bv0@.subrange(bv0@.len() - bm@.len(), bv0@.len() as int));
                        assert(members_of(out@) + merged_members(members_of(im@), members_of(bm@))
                            =~= oo + merged_members(om, ob));
                    }
                }
                assert(members_of(out@) =~= merged_members(gi, gb));
                proof {
                    lemma_object_model(out);
                }
                Value::Object(out)
            },
            _ => Value::Object(im),
        },
        Value::Array(ia) => match base {
            Value::Array(ba) => {
                if ia.len() == ba.len() {
                    let ghost gi = ia;
                    let ghost gb = ba;
                    let n = ia.len();
                    let mut ia = ia;
                    let mut ba = ba;
                    let mut out: Vec<Value> = Vec::new();
                    while ia.len() > 0
                        invariant
                            out@.len() + ia@.len() == n,
                            ia@.len() == ba@.len(),
                            n == gi@.len(),
                            n == gb@.len(),
                            ia@ == gi@.subrange(out@.len() as int, n as int),
                            ba@ == gb@.subrange(out@.len() as int, n as int),
                            b0 == Value::Array(gb),
                            b0 == base,
                            forall|j: int|
                                0 <= j < out@.len() ==> (#[trigger] out@[j])@ == merged(
                                    json_of(gi@[j]),
                                    json_of(gb@[j]),
                                ),
                        decreases ia@.len(),
                    {
                        let x = ia.remove(0);
                        let y = ba.remove(0);
                        proof {
                            assert(y == gb@[out@.len() as int]);
                            assert(decreases_to!(b0 => b0->Array_0));
                            assert(decreases_to!(gb => gb@));
                            assert(decreases_to!(gb@ => gb@[out@.len() as int]));
                            assert(decreases_to!(b0 => y));
                        }
                        let z = merge_value(x, y);
                        out.push(z);
                        assert(ia@ =~= gi@.subrange(out@.len() as int, n as int));
                        assert(ba@ =~= gb@.subrange(out@.len() as int, n as int));
                    }
                    let r = Value::Array(out);
                    proof {
                        assert(i0 == Value::Array(gi));
                        let ji = i0@->Array_0;
                        let jb = b0@->Array_0;
                        assert(ji.len() == n && jb.len() == n);
                        let m = merged(i0@, b0@);
                        assert(m->Array_0 =~= r@->Array_0) by {
                            assert forall|j: int| 0 <= j < n implies m->Array_0[j] == r@->Array_0[j] by {
                                assert(ji[j] == json_of(gi@[j]));
                                assert(jb[j] == json_of(gb@[j]));
                            }
                        }
                        assert(r@ == m);
                    }
                    r
                } else {
                    Value::Array(ia)
                }
            },
            _ => Value::Array(ia),
        },
        other => other,
    }
}

/// The model of an optional pair of values.
pub open spec fn pair_view(p: Option<(Value, Value)>) -> Option<(Json, Json)> {
    match p {
        Some((a, b)) => Some((a@, b@)),
        None => None,
    }
}

/// Finds the first mismatch between `item` and `base`, and copies the two values
/// found there.
fn find_mismatch(item: &Value, base: &Value) -> (r: Option<(Value, Value)>)
    ensures
        pair_view(r) == mismatch(item@, base@),
    decreases base,
{
    match item {
        Value::Object(im) => match base {
            Value::Object(bm) => {
                let ghost gi = members_of(im@);
                let ghost gb = members_of(bm@);
                proof {
                    lemma_object_model(*im);
                    lemma_object_model(*bm);
                    assert(gi.subrange(0, gi.len() as int) =~= gi);
                    assert(gb.subrange(0, gb.len() as int) =~= gb);
                }
                let mut i: usize = 0;
                let mut j: usize = 0;
                while i < im.len() && j < bm.len()
                    invariant
                        i <= im@.len(),
                        j <= bm@.len(),
                        gi == members_of(im@),
                        gb == members_of(bm@),
                        *base == Value::Object(*bm),
                        mismatch(item@, base@) == mismatch_members(
                            gi.subrange(i as int, gi.len() as int),
                            gb.subrange(j as int, gb.len() as int),
                        ),
                    decreases im@.len() + bm@.len() - i - j,
                {
                    let ghost si = gi.subrange(i as int, gi.len() as int);
                    let ghost sb = gb.subrange(j as int, gb.len() as int);
                    assert(si.subrange(1, si.len() as int) =~= gi.subrange(i + 1, gi.len() as int));
                    assert(sb.subrange(1, sb.len() as int) =~= gb.subrange(j + 1, gb.len() as int));
                    if im[i].0 == bm[j].0 {
                        if !is_marker_value(&im[i].1) {
                            proof {
                                assert(decreases_to!(*base => base->Object_0));
                                assert(decreases_to!(*bm => bm@));
                                assert(decreases_to!(bm@ => bm@[j as int]));
                                assert(decreases_to!(bm@[j as int] => bm@[j as int].1));
                            }
                            let found = find_mismatch(&im[i].1, &bm[j].1);
                            if found.is_some() {
                                return found;
                            }
                        }
                        i = i + 1;
                        j = j + 1;
                    } else if key_before(&im[i].0, &bm[j].0) {
                        i = i + 1;
                    } else {
                        j = j + 1;
                    }
                }
                None
            },
            _ => Some((copy_value(item), copy_value(base))),
        },
        Value::Array(ia) => match base {
            Value::Array(ba) => {
                if ia.len() != ba.len() {
                    return None;
                }
                let ghost ji = item@->Array_0;
                let ghost jb = base@->Array_0;
                let n = ia.len();
                proof {
                    assert(ji.subrange(0, n as int) =~= ji);
                    assert(jb.subrange(0, n as int) =~= jb);
                }
                let mut k: usize = 0;
                while k < n
                    invariant
                        k <= n,
                        n == ia@.len(),
                        n == ba@.len(),
                        ji.len() == n,
                        jb.len() == n,
                        forall|t: int| 0 <= t < n ==> ji[t] == json_of(#[trigger] ia@[t]),
                        forall|t: int| 0 <= t < n ==> jb[t] == json_of(#[trigger] ba@[t]),
                        *base == Value::Array(*ba),
                        mismatch(item@, base@) == mismatch_items(
                            ji.subrange(k as int, n as int),
                            jb.subrange(k as int, n as int),
                        ),
                    decreases n - k,
                {
                    let ghost si = ji.subrange(k as int, n as int);
                    let ghost sb = jb.subrange(k as int, n as int);
                    assert(si.subrange(1, si.len() as int) =~= ji.subrange(k + 1, n as int));
                    assert(sb.subrange(1, sb.len() as int) =~= jb.subrange(k + 1, n as int));
                    proof {
                        assert(decreases_to!(*base => base->Array_0));
                        assert(decreases_to!(*ba => ba@));
                        assert(decreases_to!(ba@ => ba@[k as int]));
                    }
                    let found = find_mismatch(&ia[k], &ba[k]);
                    if found.is_some() {
                        return found;
                    }
                    k = k + 1;
                }
                None
            },
            _ => Some((copy_value(item), copy_value(base))),
        },
        _ => None,
    }
}

/// How deeply a value nests: 0 for a scalar, and one more than its deepest element
/// or member for an array or an object.
pub open spec fn depth(v: Json) -> nat
    decreases v,
{
    match v {
        Json::Array(a) => 1 + items_depth(a),
        Json::Object(m) => 1 + members_depth(m),
        _ => 0,
    }
}

/// The greatest depth among the values of a list, 0 for none.
pub open spec fn items_depth(a: Seq<Json>) -> nat
    decreases a,
{
    if a.len() == 0 {
        0
    } else {
        let d = depth(a[0]);
        let rest = items_depth(a.subrange(1, a.len() as int));
        if d >= rest {
            d
        } else {
            rest
        }
    }
}

/// The greatest depth among the member values of a list, 0 for none.
pub open spec fn members_depth(m: Seq<(Seq<char>, Json)>) -> nat
    decreases m,
{
    if m.len() == 0 {
        0
    } else {
        let d = depth(m[0].1);
        let rest = members_depth(m.subrange(1, m.len() as int));
        if d >= rest {
            d
        } else {
            rest
        }
    }
}

/// Whether `v` nests deeper than `limit`; looks no more than `limit` levels down.
pub fn deeper_than(v: &Value, limit: usize) -> (r: bool)
    ensures
        r == (depth(v@) > limit),
    decreases v,
{
    match v {
        Value::Array(a) => {
            if limit == 0 {
                return true;
            }
            let ghost ja = v@->Array_0;
            let n = a.len();
            proof {
                assert(ja.subrange(0, n as int) =~= ja);
            }
            let mut k: usize = 0;
            while k < n
                invariant
                    k <= n,
                    n == a@.len(),
                    ja.len() == n,
                    1 <= limit,
                    forall|t: int| 0 <= t < n ==> ja[t] == json_of(#[trigger] a@[t]),
                    *v == Value::Array(*a),
                    ja == v@->Array_0,
                    (items_depth(ja) > limit - 1) == (items_depth(ja.subrange(k as int, n as int))
                        > limit - 1),
                decreases n - k,
            {
                let ghost sa = ja.subrange(k as int, n as int);
                assert(sa.subrange(1, sa.len() as int) =~= ja.subrange(k + 1, n as int));
                proof {
                    assert(decreases_to!(*v => v->Array_0));
                    assert(decreases_to!(*a => a@));
                    assert(decreases_to!(a@ => a@[k as int]));
                }
                if deeper_than(&a[k], limit - 1) {
                    return true;
                }
                k = k + 1;
            }
            false
        },
        Value::Object(m) => {
            if limit == 0 {
                return true;
            }
            let ghost jm = members_of(m@);
            proof {
                lemma_object_model(*m);
            }
            let n = m.len();
            proof {
                assert(jm.subrange(0, n as int) =~= jm);
            }
            let mut k: usize = 0;
            while k < n
                invariant
                    k <= n,
                    n == m@.len(),
                    jm == members_of(m@),
                    1 <= limit,
                    *v == Value::Object(*m),
                    v@ == Json::Object(jm),
                    (members_depth(jm) > limit - 1) == (members_depth(
                        jm.subrange(k as int, n as int),
                    ) > limit - 1),
                decreases n - k,
            {
                let ghost sm = jm.subrange(k as int, n as int);
                assert(sm.subrange(1, sm.len() as int) =~= jm.subrange(k + 1, n as int));
                proof {
                    assert(decreases_to!(*v => v->Object_0));
                    assert(decreases_to!(*m => m@));
                    assert(decreases_to!(m@ => m@[k as int]));
                    assert(decreases_to!(m@[k as int] => m@[k as int].1));
                }
                if deeper_than(&m[k].1, limit - 1) {
                    return true;
                }
                k = k + 1;
            }
            false
        },
        _ => false,
    }
}

/// Why hydration was refused.
#[derive(Debug, PartialEq, Eq)]
pub enum Error {
    /// The item holds an object or an array where the base holds something else;
    /// carries the item's value and the base's value found there.
    TypeMismatch(Value, Value),
    /// A document is nested deeper than the limit that the caller set.
    DepthExceeded,
}

/// Filling in what a document lacks from a document of defaults.
pub trait Hydrate: Sized {
    /// What `hydrate` promises of the value before the call, the value after it,
    /// the base and the result.
    spec fn hydrate_ensures(before: Self, after: Self, base: Self, r: Result<(), Error>) -> bool;

    /// Fills in what `self` lacks from `base`.
    fn hydrate(&mut self, base: Self) -> (r: Result<(), Error>)
        ensures
            Self::hydrate_ensures(*old(self), *final(self), base, r),
    ;
}

impl Hydrate for Value {
    /// On success, which comes exactly when there is no mismatch, the value is the
    /// merge; on a mismatch the error carries the first one and the value is
    /// left as it was.
    open spec fn hydrate_ensures(before: Value, after: Value, base: Value, r: Result<(), Error>) -> bool {
        match r {
            Ok(()) => mismatch(before@, base@) is None && after@ == merged(before@, base@),
            Err(Error::TypeMismatch(a, b)) => mismatch(before@, base@) == Some((a@, b@))
                && after == before,
            Err(Error::DepthExceeded) => false,
        }
    }

    fn hydrate(&mut self, base: Value) -> (r: Result<(), Error>) {
        match find_mismatch(self, &base) {
            Some((a, b)) => Err(Error::TypeMismatch(a, b)),
            None => {
                self.hydrate_lenient(base);
                Ok(())
            },
        }
    }
}

impl Value {
    /// Fills in what `self` lacks from `base`, keeping the item's node wherever the
    /// two do not have the same shape.
    pub fn hydrate_lenient(&mut self, base: Value)
        ensures
            (*final(self))@ == merged(old(self)@, base@),
            old(self)@.wf() && base@.wf() ==> (*final(self))@.wf(),
    {
        proof {
            if self@.wf() && base@.wf() {
                lemma_merged_wf(self@, base@);
            }
        }
        let mut item = Value::Null;
        std::mem::swap(self, &mut item);
        *self = merge_value(item, base);
    }

    /// Hydrates as `hydrate` does, after refusing an item or a base nested deeper
    /// than `max_depth`.
    pub fn hydrate_within(&mut self, base: Value, max_depth: usize) -> (r: Result<(), Error>)
        ensures
            (r matches Err(Error::DepthExceeded)) == (depth(old(self)@) > max_depth || depth(base@)
                > max_depth),
            r matches Err(Error::DepthExceeded) ==> *final(self) == *old(self),
            !(r matches Err(Error::DepthExceeded)) ==> Value::hydrate_ensures(
                *old(self),
                *final(self),
                base,
                r,
            ),
    {
        if deeper_than(self, max_depth) || deeper_than(&base, max_depth) {
            return Err(Error::DepthExceeded);
        }
        self.hydrate(base)
    }
}

} // verus!
