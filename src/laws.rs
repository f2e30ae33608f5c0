use vstd::prelude::*;

use crate::hydrate::{is_marker, merged, merged_members, mismatch};
use crate::keys::{key_less, lemma_key_total, lemma_lex_asymmetric, lemma_lex_irreflexive, lemma_lex_transitive};
use crate::value::{
    all_above, all_wf, lemma_cons_sorted, lemma_object_wf, lemma_tail_facts, sorted_keys, Json,
};
use vstd::utf8::encode_utf8;

verus! {

/// No object, at any depth, holds the removal marker as a member's value.
pub open spec fn marker_free(v: Json) -> bool
    decreases v,
{
    match v {
        Json::Array(a) => forall|i: int| 0 <= i < a.len() ==> marker_free(#[trigger] a[i]),
        Json::Object(m) => forall|i: int|
            0 <= i < m.len() ==> !is_marker((#[trigger] m[i]).1) && marker_free(m[i].1),
        _ => true,
    }
}

/// Whether a value is an object or an array.
pub open spec fn is_container(v: Json) -> bool {
    v is Object || v is Array
}

proof fn lemma_tail_marker_free(m: Seq<(Seq<char>, Json)>)
    requires
        m.len() > 0,
        marker_free(Json::Object(m)),
    ensures
        marker_free(Json::Object(m.subrange(1, m.len() as int))),
        !is_marker(m[0].1),
        marker_free(m[0].1),
{
    let t = m.subrange(1, m.len() as int);
    let v = Json::Object(m);
    assert(v->Object_0 == m);
    assert(marker_free(v) == (forall|i: int|
        0 <= i < m.len() ==> !is_marker((#[trigger] m[i]).1) && marker_free(m[i].1)));
    assert(!is_marker(m[0].1) && marker_free(m[0].1));
    let w = Json::Object(t);
    assert(w->Object_0 == t);
    assert(marker_free(w) == (forall|i: int|
        0 <= i < t.len() ==> !is_marker((#[trigger] t[i]).1) && marker_free(t[i].1)));
    assert forall|i: int| 0 <= i < t.len() implies !is_marker((#[trigger] t[i]).1) && marker_free(
        t[i].1,
    ) by {
        assert(t[i] == m[i + 1]);
    }
}

/// Hydrating a value from an equal base gives the value back, provided that it
/// marks nothing for removal.
pub proof fn lemma_merge_self(v: Json)
    requires
        marker_free(v),
    ensures
        merged(v, v) == v,
    decreases v,
{
    match v {
        Json::Object(m) => {
            lemma_members_self(m);
        },
        Json::Array(a) => {
            assert forall|i: int| 0 <= i < a.len() implies merged(a[i], a[i]) == a[i] by {
                lemma_merge_self(a[i]);
            }
            assert(merged(v, v)->Array_0 =~= a);
        },
        _ => {},
    }
}

proof fn lemma_members_self(m: Seq<(Seq<char>, Json)>)
    requires
        marker_free(Json::Object(m)),
    ensures
        merged_members(m, m) == m,
    decreases m,
{
    if m.len() > 0 {
        let t = m.subrange(1, m.len() as int);
        lemma_tail_marker_free(m);
        lemma_members_self(t);
        lemma_merge_self(m[0].1);
        assert(seq![(m[0].0, merged(m[0].1, m[0].1))] + t =~= m);
    }
}

proof fn lemma_marker_kept(i: Json, b: Json)
    ensures
        is_marker(merged(i, b)) == is_marker(i),
{
}

/// Hydrating twice from the same base gives what hydrating once gives, provided
/// that neither document marks anything for removal.
pub proof fn lemma_merge_idempotent(item: Json, base: Json)
    requires
        marker_free(item),
        marker_free(base),
    ensures
        merged(merged(item, base), base) == merged(item, base),
    decreases base, 0nat,
{
    match item {
        Json::Object(im) => match base {
            Json::Object(bm) => {
                lemma_members_idempotent(im, bm);
            },
            _ => {},
        },
        Json::Array(ia) => match base {
            Json::Array(ba) => {
                if ia.len() == ba.len() {
                    let once = merged(item, base);
                    assert forall|k: int| 0 <= k < ia.len() implies merged(
                        merged(ia[k], ba[k]),
                        ba[k],
                    ) == merged(ia[k], ba[k]) by {
                        lemma_merge_idempotent(ia[k], ba[k]);
                    }
                    assert(merged(once, base)->Array_0 =~= once->Array_0);
                }
            },
            _ => {},
        },
        _ => {},
    }
}

proof fn lemma_members_idempotent(im: Seq<(Seq<char>, Json)>, bm: Seq<(Seq<char>, Json)>)
    requires
        marker_free(Json::Object(im)),
        marker_free(Json::Object(bm)),
    ensures
        merged_members(merged_members(im, bm), bm) == merged_members(im, bm),
    decreases bm, im.len(),
{
    if bm.len() == 0 {
    } else if im.len() == 0 {
        lemma_members_self(bm);
    } else {
        let it = im.subrange(1, im.len() as int);
        let bt = bm.subrange(1, bm.len() as int);
        lemma_tail_marker_free(im);
        lemma_tail_marker_free(bm);
        let r = merged_members(im, bm);
        if im[0].0 == bm[0].0 {
            let rest = merged_members(it, bt);
            lemma_members_idempotent(it, bt);
            lemma_merge_idempotent(im[0].1, bm[0].1);
            lemma_marker_kept(im[0].1, bm[0].1);
            assert(r.subrange(1, r.len() as int) =~= rest);
        } else if crate::keys::key_less(im[0].0, bm[0].0) {
            lemma_members_idempotent(it, bm);
            assert(r.subrange(1, r.len() as int) =~= merged_members(it, bm));
        } else {
            lemma_members_idempotent(im, bt);
            lemma_merge_self(bm[0].1);
            assert(r.subrange(1, r.len() as int) =~= merged_members(im, bt));
        }
    }
}

/// Arrays of different lengths do not merge: the item's array stays as it is, and
/// no mismatch is reported inside it.
pub proof fn lemma_array_length_mismatch(ia: Seq<Json>, ba: Seq<Json>)
    requires
        ia.len() != ba.len(),
    ensures
        merged(Json::Array(ia), Json::Array(ba)) == Json::Array(ia),
        mismatch(Json::Array(ia), Json::Array(ba)) is None,
{
}

/// Arrays of one length merge position by position, whatever their elements are.
pub proof fn lemma_array_positional(ia: Seq<Json>, ba: Seq<Json>)
    requires
        ia.len() == ba.len(),
    ensures
        merged(Json::Array(ia), Json::Array(ba)) is Array,
        merged(Json::Array(ia), Json::Array(ba))->Array_0.len() == ia.len(),
        forall|k: int|
            0 <= k < ia.len() ==> merged(Json::Array(ia), Json::Array(ba))->Array_0[k] == merged(
                #[trigger] ia[k],
                ba[k],
            ),
{
}

/// A value that is neither an object nor an array wins over any base, and
/// raises no mismatch.
pub proof fn lemma_scalar_wins(item: Json, base: Json)
    requires
        !is_container(item),
    ensures
        merged(item, base) == item,
        mismatch(item, base) is None,
{
}

/// An object or an array over a base of another kind is a mismatch, reported at
/// the root with both values.
pub proof fn lemma_root_mismatch(item: Json, base: Json)
    requires
        (item is Object && !(base is Object)) || (item is Array && !(base is Array)),
    ensures
        mismatch(item, base) == Some((item, base)),
        merged(item, base) == item,
{
}

/// Hydrating an empty object from an object gives that object.
pub proof fn lemma_fill_empty(bm: Seq<(Seq<char>, Json)>)
    ensures
        merged(Json::Object(Seq::empty()), Json::Object(bm)) == Json::Object(bm),
        mismatch(Json::Object(Seq::empty()), Json::Object(bm)) is None,
{
    let e: Seq<(Seq<char>, Json)> = Seq::empty();
    let i = Json::Object(e);
    let b = Json::Object(bm);
    assert(i->Object_0 == e && b->Object_0 == bm);
    if bm.len() == 0 {
        assert(bm =~= e);
    }
    assert(merged_members(e, bm) == bm);
    assert(merged(i, b) == Json::Object(merged_members(e, bm)));
}

/// No member of the list has key `k`.
pub open spec fn key_absent(m: Seq<(Seq<char>, Json)>, k: Seq<char>) -> bool {
    forall|i: int| 0 <= i < m.len() ==> (#[trigger] m[i]).0 != k
}

proof fn lemma_tail_sorted(m: Seq<(Seq<char>, Json)>)
    requires
        m.len() > 0,
        sorted_keys(m),
    ensures
        sorted_keys(m.subrange(1, m.len() as int)),
        key_absent(m.subrange(1, m.len() as int), m[0].0),
{
    let t = m.subrange(1, m.len() as int);
    assert forall|i: int, j: int| 0 <= i < j < t.len() implies key_less(
        #[trigger] t[i].0,
        #[trigger] t[j].0,
    ) by {
        assert(t[i] == m[i + 1] && t[j] == m[j + 1]);
    }
    assert forall|i: int| 0 <= i < t.len() implies (#[trigger] t[i]).0 != m[0].0 by {
        assert(t[i] == m[i + 1]);
        assert(key_less(m[0].0, m[i + 1].0));
        lemma_lex_irreflexive(encode_utf8(m[0].0));
    }
}

proof fn lemma_cons_absent(x: (Seq<char>, Json), r: Seq<(Seq<char>, Json)>, k: Seq<char>)
    requires
        x.0 != k,
        key_absent(r, k),
    ensures
        key_absent(seq![x] + r, k),
{
    let s = seq![x] + r;
    assert forall|i: int| 0 <= i < s.len() implies (#[trigger] s[i]).0 != k by {
        if i > 0 {
            assert(s[i] == r[i - 1]);
        }
    }
}

/// A key that neither list has does not appear in their merge.
proof fn lemma_merge_keeps_absent(
    im: Seq<(Seq<char>, Json)>,
    bm: Seq<(Seq<char>, Json)>,
    k: Seq<char>,
)
    requires
        key_absent(im, k),
        key_absent(bm, k),
    ensures
        key_absent(merged_members(im, bm), k),
    decreases bm, im.len(),
{
    if bm.len() > 0 && im.len() > 0 {
        let it = im.subrange(1, im.len() as int);
        let bt = bm.subrange(1, bm.len() as int);
        assert(im[0].0 != k && bm[0].0 != k);
        assert(key_absent(it, k)) by {
            assert forall|i: int| 0 <= i < it.len() implies (#[trigger] it[i]).0 != k by {
                assert(it[i] == im[i + 1]);
            }
        }
        assert(key_absent(bt, k)) by {
            assert forall|i: int| 0 <= i < bt.len() implies (#[trigger] bt[i]).0 != k by {
                assert(bt[i] == bm[i + 1]);
            }
        }
        if im[0].0 == bm[0].0 {
            lemma_merge_keeps_absent(it, bt, k);
            if !is_marker(im[0].1) {
                lemma_cons_absent((im[0].0, merged(im[0].1, bm[0].1)), merged_members(it, bt), k);
            }
        } else if key_less(im[0].0, bm[0].0) {
            lemma_merge_keeps_absent(it, bm, k);
            lemma_cons_absent(im[0], merged_members(it, bm), k);
        } else {
            lemma_merge_keeps_absent(im, bt, k);
            lemma_cons_absent(bm[0], merged_members(im, bt), k);
        }
    }
}

/// A member that the item marks for removal takes its key out of the merge when
/// the base has that key, whatever the base holds there. Both member lists are
/// sorted by key, as in every well-formed object.
pub proof fn lemma_marker_removes_key(
    im: Seq<(Seq<char>, Json)>,
    bm: Seq<(Seq<char>, Json)>,
    i: int,
    j: int,
)
    requires
        sorted_keys(im),
        sorted_keys(bm),
        0 <= i < im.len(),
        0 <= j < bm.len(),
        is_marker(im[i].1),
        im[i].0 == bm[j].0,
    ensures
        key_absent(merged_members(im, bm), im[i].0),
    decreases bm, im.len(),
{
    let k = im[i].0;
    let it = im.subrange(1, im.len() as int);
    let bt = bm.subrange(1, bm.len() as int);
    lemma_tail_sorted(im);
    lemma_tail_sorted(bm);
    if i > 0 {
        assert(key_less(im[0].0, k));
        assert(it[i - 1] == im[i]);
    }
    if j > 0 {
        assert(key_less(bm[0].0, k));
        assert(bt[j - 1] == bm[j]);
    }
    if im[0].0 == bm[0].0 {
        if im[0].0 == k {
            if i > 0 {
                lemma_lex_irreflexive(encode_utf8(k));
            }
            if j > 0 {
                lemma_lex_irreflexive(encode_utf8(k));
            }
            lemma_merge_keeps_absent(it, bt, k);
        } else {
            lemma_marker_removes_key(it, bt, i - 1, j - 1);
            if !is_marker(im[0].1) {
                lemma_cons_absent((im[0].0, merged(im[0].1, bm[0].1)), merged_members(it, bt), k);
            }
        }
    } else if key_less(im[0].0, bm[0].0) {
        if i == 0 {
            if j == 0 {
            } else {
                lemma_lex_asymmetric(encode_utf8(k), encode_utf8(bm[0].0));
            }
        }
        lemma_marker_removes_key(it, bm, i - 1, j);
        lemma_cons_absent(im[0], merged_members(it, bm), k);
    } else {
        lemma_marker_removes_key(im, bt, i, j - 1);
        lemma_cons_absent(bm[0], merged_members(im, bt), k);
    }
}

proof fn lemma_cons_contains(x: (Seq<char>, Json), r: Seq<(Seq<char>, Json)>, y: (Seq<char>, Json))
    requires
        r.contains(y) || x == y,
    ensures
        (seq![x] + r).contains(y),
{
    let s = seq![x] + r;
    if x == y {
        assert(s[0] == y);
    } else {
        let t = choose|t: int| 0 <= t < r.len() && r[t] == y;
        assert(s[t + 1] == y);
    }
}

proof fn lemma_tail_absent(m: Seq<(Seq<char>, Json)>, k: Seq<char>)
    requires
        m.len() > 0,
        key_absent(m, k),
    ensures
        key_absent(m.subrange(1, m.len() as int), k),
{
    let t = m.subrange(1, m.len() as int);
    assert forall|i: int| 0 <= i < t.len() implies (#[trigger] t[i]).0 != k by {
        assert(t[i] == m[i + 1]);
    }
}

/// A member of the item whose key the base lacks is kept as it is.
pub proof fn lemma_item_only_kept(im: Seq<(Seq<char>, Json)>, bm: Seq<(Seq<char>, Json)>, i: int)
    requires
        0 <= i < im.len(),
        key_absent(bm, im[i].0),
    ensures
        merged_members(im, bm).contains(im[i]),
    decreases bm, im.len(),
{
    let it = im.subrange(1, im.len() as int);
    let bt = bm.subrange(1, bm.len() as int);
    if bm.len() == 0 {
        assert(merged_members(im, bm)[i] == im[i]);
    } else {
        lemma_tail_absent(bm, im[i].0);
        if i > 0 {
            assert(it[i - 1] == im[i]);
        }
        if im[0].0 == bm[0].0 {
            lemma_item_only_kept(it, bt, i - 1);
            if !is_marker(im[0].1) {
                lemma_cons_contains((im[0].0, merged(im[0].1, bm[0].1)), merged_members(it, bt), im[i]);
            }
        } else if key_less(im[0].0, bm[0].0) {
            if i > 0 {
                lemma_item_only_kept(it, bm, i - 1);
            }
            lemma_cons_contains(im[0], merged_members(it, bm), im[i]);
        } else {
            lemma_item_only_kept(im, bt, i);
            lemma_cons_contains(bm[0], merged_members(im, bt), im[i]);
        }
    }
}

/// A member of the base whose key the item lacks is taken over as it is.
pub proof fn lemma_base_only_kept(im: Seq<(Seq<char>, Json)>, bm: Seq<(Seq<char>, Json)>, j: int)
    requires
        0 <= j < bm.len(),
        key_absent(im, bm[j].0),
    ensures
        merged_members(im, bm).contains(bm[j]),
    decreases bm, im.len(),
{
    let it = im.subrange(1, im.len() as int);
    let bt = bm.subrange(1, bm.len() as int);
    if im.len() == 0 {
        assert(merged_members(im, bm)[j] == bm[j]);
    } else {
        lemma_tail_absent(im, bm[j].0);
        if j > 0 {
            assert(bt[j - 1] == bm[j]);
        }
        if im[0].0 == bm[0].0 {
            lemma_base_only_kept(it, bt, j - 1);
            if !is_marker(im[0].1) {
                lemma_cons_contains((im[0].0, merged(im[0].1, bm[0].1)), merged_members(it, bt), bm[j]);
            }
        } else if key_less(im[0].0, bm[0].0) {
            lemma_base_only_kept(it, bm, j);
            lemma_cons_contains(im[0], merged_members(it, bm), bm[j]);
        } else {
            if j > 0 {
                lemma_base_only_kept(im, bt, j - 1);
            }
            lemma_cons_contains(bm[0], merged_members(im, bt), bm[j]);
        }
    }
}

proof fn lemma_merge_above(
    im: Seq<(Seq<char>, Json)>,
    bm: Seq<(Seq<char>, Json)>,
    a: Seq<char>,
)
    requires
        all_above(im, a),
        all_above(bm, a),
    ensures
        all_above(merged_members(im, bm), a),
    decreases bm, im.len(),
{
    let r = merged_members(im, bm);
    if bm.len() > 0 && im.len() > 0 {
        let it = im.subrange(1, im.len() as int);
        let bt = bm.subrange(1, bm.len() as int);
        assert(all_above(it, a)) by {
            assert forall|i: int| 0 <= i < it.len() implies key_less(a, (#[trigger] it[i]).0) by {
                assert(it[i] == im[i + 1]);
            }
        }
        assert(all_above(bt, a)) by {
            assert forall|i: int| 0 <= i < bt.len() implies key_less(a, (#[trigger] bt[i]).0) by {
                assert(bt[i] == bm[i + 1]);
            }
        }
        let (x, rest) = if im[0].0 == bm[0].0 {
            lemma_merge_above(it, bt, a);
            ((im[0].0, merged(im[0].1, bm[0].1)), merged_members(it, bt))
        } else if key_less(im[0].0, bm[0].0) {
            lemma_merge_above(it, bm, a);
            (im[0], merged_members(it, bm))
        } else {
            lemma_merge_above(im, bt, a);
            (bm[0], merged_members(im, bt))
        };
        assert forall|i: int| 0 <= i < r.len() implies key_less(a, (#[trigger] r[i]).0) by {
            if im[0].0 == bm[0].0 && is_marker(im[0].1) {
                assert(r == rest);
            } else {
                assert(r == seq![x] + rest);
                if i > 0 {
                    assert(r[i] == rest[i - 1]);
                }
            }
        }
    }
}

proof fn lemma_above_by_head(m: Seq<(Seq<char>, Json)>, a: Seq<char>)
    requires
        m.len() > 0,
        sorted_keys(m),
        key_less(a, m[0].0),
    ensures
        all_above(m, a),
{
    assert forall|i: int| 0 <= i < m.len() implies key_less(a, (#[trigger] m[i]).0) by {
        if i > 0 {
            assert(key_less(m[0].0, m[i].0));
            lemma_lex_transitive(encode_utf8(a), encode_utf8(m[0].0), encode_utf8(m[i].0));
        }
    }
}

proof fn lemma_members_wf(im: Seq<(Seq<char>, Json)>, bm: Seq<(Seq<char>, Json)>)
    requires
        sorted_keys(im),
        all_wf(im),
        sorted_keys(bm),
        all_wf(bm),
    ensures
        sorted_keys(merged_members(im, bm)),
        all_wf(merged_members(im, bm)),
    decreases bm, im.len(),
{
    if bm.len() > 0 && im.len() > 0 {
        let it = im.subrange(1, im.len() as int);
        let bt = bm.subrange(1, bm.len() as int);
        lemma_tail_facts(im);
        lemma_tail_facts(bm);
        if im[0].0 == bm[0].0 {
            lemma_members_wf(it, bt);
            if !is_marker(im[0].1) {
                lemma_merged_wf(im[0].1, bm[0].1);
                lemma_merge_above(it, bt, im[0].0);
                lemma_cons_sorted((im[0].0, merged(im[0].1, bm[0].1)), merged_members(it, bt));
            }
        } else if key_less(im[0].0, bm[0].0) {
            lemma_members_wf(it, bm);
            lemma_above_by_head(bm, im[0].0);
            lemma_merge_above(it, bm, im[0].0);
            lemma_cons_sorted(im[0], merged_members(it, bm));
        } else {
            lemma_members_wf(im, bt);
            lemma_key_total(im[0].0, bm[0].0);
            lemma_above_by_head(im, bm[0].0);
            lemma_merge_above(im, bt, bm[0].0);
            lemma_cons_sorted(bm[0], merged_members(im, bt));
        }
    }
}

/// Hydrating a well-formed document from a well-formed base gives a well-formed
/// document: every object keeps its keys strictly increasing.
pub proof fn lemma_merged_wf(item: Json, base: Json)
    requires
        item.wf(),
        base.wf(),
    ensures
        merged(item, base).wf(),
    decreases base, 0nat,
{
    match item {
        Json::Object(im) => match base {
            Json::Object(bm) => {
                lemma_object_wf(im);
                lemma_object_wf(bm);
                lemma_members_wf(im, bm);
                lemma_object_wf(merged_members(im, bm));
            },
            _ => {},
        },
        Json::Array(ia) => match base {
            Json::Array(ba) => {
                if ia.len() == ba.len() {
                    let r = merged(item, base);
                    let ra = r->Array_0;
                    assert(item->Array_0 == ia && base->Array_0 == ba);
                    assert forall|k: int| 0 <= k < ra.len() implies (#[trigger] ra[k]).wf() by {
                        lemma_merged_wf(ia[k], ba[k]);
                    }
                    assert(r->Array_0 == ra);
                }
            },
            _ => {},
        },
        _ => {},
    }
}

} // verus!
