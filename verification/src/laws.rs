//! Laws of the flattener, proved once and for all inputs: the root entry
//! is always present, every entry's parent pointer is present, empty
//! containers contribute exactly their own entry, and re-flattening a
//! flat map never gives the map back.

use vstd::prelude::*;

use crate::flatten::arr_entries;
use crate::flatten::dec_str;
use crate::flatten::digit_of;
use crate::flatten::entries_of;
use crate::flatten::flatten_model;
use crate::flatten::index_segment;
use crate::flatten::key_segment;
use crate::flatten::obj_entries;
use crate::pointer::escape_seq;
use crate::pointer::lemma_escape_no_slash;
use crate::value::JsonModel;

verus! {

broadcast use vstd::seq::axiom_seq_index_decreases;

/// Whether some entry of `es` has the pointer `p`.
pub open spec fn has_key(es: Seq<(Seq<char>, JsonModel)>, p: Seq<char>) -> bool {
    exists|i: int| 0 <= i < es.len() && es[i].0 == p
}

/// The index of the last `/` of `p`, or `-1` when `p` has none.
pub open spec fn last_slash(p: Seq<char>) -> int
    decreases p.len(),
{
    if p.len() == 0 {
        -1
    } else if p[p.len() - 1] == '/' {
        p.len() - 1
    } else {
        last_slash(p.drop_last())
    }
}

/// The pointer of the parent of the node at pointer `p`: everything
/// before the last `/`, which starts `p`'s own final segment.
pub open spec fn parent_pointer(p: Seq<char>) -> Seq<char> {
    p.take(last_slash(p))
}

/// The flat map of any value is a JSON object, never an array or a
/// scalar, and it always holds an entry for the root pointer (the empty
/// string), which comes first.
pub proof fn lemma_flatten_root(m: JsonModel)
    ensures
        flatten_model(m) is Obj,
        entries_of(m, Seq::empty()).len() >= 1,
        entries_of(m, Seq::empty())[0].0 == Seq::<char>::empty(),
        has_key(entries_of(m, Seq::empty()), Seq::empty()),
{
    lemma_entries_head(m, Seq::empty());
    let es = entries_of(m, Seq::empty());
    assert(es[0].0 == Seq::<char>::empty());
}

/// Every entry list starts with the entry of the visited node itself.
pub proof fn lemma_entries_head(m: JsonModel, p: Seq<char>)
    ensures
        entries_of(m, p).len() >= 1,
        entries_of(m, p)[0].0 == p,
{
    match m {
        JsonModel::Arr(a) => {
            assert(entries_of(m, p)[0] == (p, JsonModel::Arr(Seq::<JsonModel>::empty())));
        },
        JsonModel::Obj(fs) => {
            assert(entries_of(m, p)[0] == (p, JsonModel::Obj(
                Seq::<(Seq<char>, JsonModel)>::empty(),
            )));
        },
        _ => {
            assert(entries_of(m, p)[0] == (p, m));
        },
    }
}

/// An empty array flattens to exactly its own placeholder entry.
pub proof fn lemma_empty_array_entry(p: Seq<char>)
    ensures
        entries_of(JsonModel::Arr(Seq::empty()), p) == seq![
            (p, JsonModel::Arr(Seq::<JsonModel>::empty())),
        ],
{
    assert(arr_entries(Seq::empty(), p, 0) == Seq::<(Seq<char>, JsonModel)>::empty());
    assert(entries_of(JsonModel::Arr(Seq::empty()), p) =~= seq![
        (p, JsonModel::Arr(Seq::<JsonModel>::empty())),
    ]);
}

/// An empty object flattens to exactly its own placeholder entry.
pub proof fn lemma_empty_object_entry(p: Seq<char>)
    ensures
        entries_of(JsonModel::Obj(Seq::empty()), p) == seq![
            (p, JsonModel::Obj(Seq::<(Seq<char>, JsonModel)>::empty())),
        ],
{
    assert(obj_entries(Seq::empty(), p, 0) == Seq::<(Seq<char>, JsonModel)>::empty());
    assert(entries_of(JsonModel::Obj(Seq::empty()), p) =~= seq![
        (p, JsonModel::Obj(Seq::<(Seq<char>, JsonModel)>::empty())),
    ]);
}

/// Decimal notation holds digit characters only, never `/`.
pub proof fn lemma_dec_str_no_slash(n: nat)
    ensures
        forall|i: int| 0 <= i < dec_str(n).len() ==> dec_str(n)[i] != '/',
    decreases n,
{
    if n < 10 {
    } else {
        lemma_dec_str_no_slash(n / 10);
        assert forall|i: int| 0 <= i < dec_str(n).len() implies dec_str(n)[i] != '/' by {
            if i < dec_str(n / 10).len() {
                assert(dec_str(n)[i] == dec_str(n / 10)[i]);
            } else {
                assert(dec_str(n)[i] == digit_of(n % 10));
            }
        }
    }
}

/// Appending one segment (a `/` followed by slash-free characters) to a
/// pointer puts the last `/` exactly at the junction, so the parent
/// pointer of the extended pointer is the pointer itself.
proof fn lemma_parent_of_extended(p: Seq<char>, tok: Seq<char>)
    requires
        forall|i: int| 0 <= i < tok.len() ==> tok[i] != '/',
    ensures
        last_slash(p + (seq!['/'] + tok)) == p.len(),
        parent_pointer(p + (seq!['/'] + tok)) == p,
    decreases tok.len(),
{
    let q = p + (seq!['/'] + tok);
    if tok.len() == 0 {
        assert(q[q.len() - 1] == '/');
        assert(last_slash(q) == p.len());
    } else {
        assert(q[q.len() - 1] == tok[tok.len() - 1]);
        assert(q.drop_last() =~= p + (seq!['/'] + tok.drop_last()));
        lemma_parent_of_extended(p, tok.drop_last());
        assert(last_slash(q) == last_slash(q.drop_last()));
    }
    assert(q.take(p.len() as int) =~= p);
}

/// The parent pointer of an array element's pointer is the array's.
proof fn lemma_parent_of_index_segment(p: Seq<char>, i: nat)
    ensures
        parent_pointer(p + index_segment(i)) == p,
{
    lemma_dec_str_no_slash(i);
    lemma_parent_of_extended(p, dec_str(i));
    assert(index_segment(i) == seq!['/'] + dec_str(i));
}

/// The parent pointer of an object member's pointer is the object's.
proof fn lemma_parent_of_key_segment(p: Seq<char>, k: Seq<char>)
    ensures
        parent_pointer(p + key_segment(k)) == p,
{
    lemma_escape_no_slash(k);
    lemma_parent_of_extended(p, escape_seq(k));
    assert(key_segment(k) == seq!['/'] + escape_seq(k));
}

/// In the entries of a node at pointer `p`, every entry either sits at
/// `p` itself or has its parent pointer present among those entries.
proof fn lemma_entries_parents(m: JsonModel, p: Seq<char>)
    ensures
        forall|i: int|
            0 <= i < entries_of(m, p).len() ==> (entries_of(m, p)[i].0 == p || #[trigger] has_key(
                entries_of(m, p),
                parent_pointer(entries_of(m, p)[i].0),
            )),
    decreases m, 0int,
{
    let es = entries_of(m, p);
    match m {
        JsonModel::Arr(a) => {
            lemma_arr_parents(a, p, 0);
            let blk = arr_entries(a, p, 0);
            assert forall|i: int|
                0 <= i < es.len() implies (es[i].0 == p || #[trigger] has_key(
                es,
                parent_pointer(es[i].0),
            )) by {
                if i > 0 {
                    assert(es[i] == blk[i - 1]);
                    lemma_block_parent(es, blk, p, i - 1, 1);
                }
            }
        },
        JsonModel::Obj(fs) => {
            lemma_obj_parents(fs, p, 0);
            let blk = obj_entries(fs, p, 0);
            assert forall|i: int|
                0 <= i < es.len() implies (es[i].0 == p || #[trigger] has_key(
                es,
                parent_pointer(es[i].0),
            )) by {
                if i > 0 {
                    assert(es[i] == blk[i - 1]);
                    lemma_block_parent(es, blk, p, i - 1, 1);
                }
            }
        },
        _ => {
            assert(es[0].0 == p);
        },
    }
}

/// Lift a parent-presence fact from a block of entries `blk`, sitting in
/// `es` from position `off` on with `es[0].0 == p`, to the whole of `es`.
proof fn lemma_block_parent(
    es: Seq<(Seq<char>, JsonModel)>,
    blk: Seq<(Seq<char>, JsonModel)>,
    p: Seq<char>,
    j: int,
    off: int,
)
    requires
        0 <= j < blk.len(),
        0 <= off,
        off + blk.len() <= es.len(),
        forall|t: int| 0 <= t < blk.len() ==> es[off + t] == blk[t],
        es.len() >= 1,
        es[0].0 == p,
        parent_pointer(blk[j].0) == p || has_key(blk, parent_pointer(blk[j].0)),
    ensures
        has_key(es, parent_pointer(es[off + j].0)),
{
    let target = parent_pointer(blk[j].0);
    if target == p {
        assert(es[0].0 == target);
    } else {
        let w = choose|w: int| 0 <= w < blk.len() && blk[w].0 == target;
        assert(es[off + w].0 == target);
    }
}

/// Parent presence for the entries of the array elements `a[k..]`: each
/// entry's parent pointer is either `p` or present in the same block.
proof fn lemma_arr_parents(a: Seq<JsonModel>, p: Seq<char>, k: int)
    requires
        0 <= k <= a.len(),
    ensures
        forall|i: int|
            0 <= i < arr_entries(a, p, k).len() ==> (parent_pointer(arr_entries(a, p, k)[i].0) == p
                || #[trigger] has_key(arr_entries(a, p, k), parent_pointer(arr_entries(a, p, k)[i].0))),
    decreases a, a.len() - k,
{
    if k < a.len() {
        let es = arr_entries(a, p, k);
        let child = a[k];
        let cp = p + index_segment(k as nat);
        let head = entries_of(child, cp);
        let tail = arr_entries(a, p, k + 1);
        lemma_entries_parents(child, cp);
        lemma_entries_head(child, cp);
        lemma_arr_parents(a, p, k + 1);
        lemma_parent_of_index_segment(p, k as nat);
        assert forall|i: int|
            0 <= i < es.len() implies (parent_pointer(es[i].0) == p || #[trigger] has_key(
            es,
            parent_pointer(es[i].0),
        )) by {
            if i < head.len() {
                assert(es[i] == head[i]);
                if head[i].0 == cp {
                    assert(parent_pointer(es[i].0) == p);
                } else {
                    assert(has_key(head, parent_pointer(head[i].0)));
                    let w = choose|w: int| 0 <= w < head.len() && head[w].0 == parent_pointer(
                        head[i].0,
                    );
                    assert(es[w].0 == parent_pointer(es[i].0));
                }
            } else {
                let j = i - head.len();
                assert(es[i] == tail[j]);
                if parent_pointer(tail[j].0) == p {
                } else {
                    assert(has_key(tail, parent_pointer(tail[j].0)));
                    let w = choose|w: int| 0 <= w < tail.len() && tail[w].0 == parent_pointer(
                        tail[j].0,
                    );
                    assert(es[head.len() + w].0 == parent_pointer(es[i].0));
                }
            }
        }
    }
}

/// Parent presence for the entries of the object members `fs[k..]`.
proof fn lemma_obj_parents(fs: Seq<(Seq<char>, JsonModel)>, p: Seq<char>, k: int)
    requires
        0 <= k <= fs.len(),
    ensures
        forall|i: int|
            0 <= i < obj_entries(fs, p, k).len() ==> (parent_pointer(obj_entries(fs, p, k)[i].0)
                == p || #[trigger] has_key(
                obj_entries(fs, p, k),
                parent_pointer(obj_entries(fs, p, k)[i].0),
            )),
    decreases fs, fs.len() - k,
{
    if k < fs.len() {
        let es = obj_entries(fs, p, k);
        let child = fs[k].1;
        let cp = p + key_segment(fs[k].0);
        let head = entries_of(child, cp);
        let tail = obj_entries(fs, p, k + 1);
        lemma_entries_parents(child, cp);
        lemma_entries_head(child, cp);
        lemma_obj_parents(fs, p, k + 1);
        lemma_parent_of_key_segment(p, fs[k].0);
        assert forall|i: int|
            0 <= i < es.len() implies (parent_pointer(es[i].0) == p || #[trigger] has_key(
            es,
            parent_pointer(es[i].0),
        )) by {
            if i < head.len() {
                assert(es[i] == head[i]);
                if head[i].0 == cp {
                    assert(parent_pointer(es[i].0) == p);
                } else {
                    assert(has_key(head, parent_pointer(head[i].0)));
                    let w = choose|w: int| 0 <= w < head.len() && head[w].0 == parent_pointer(
                        head[i].0,
                    );
                    assert(es[w].0 == parent_pointer(es[i].0));
                }
            } else {
                let j = i - head.len();
                assert(es[i] == tail[j]);
                if parent_pointer(tail[j].0) == p {
                } else {
                    assert(has_key(tail, parent_pointer(tail[j].0)));
                    let w = choose|w: int| 0 <= w < tail.len() && tail[w].0 == parent_pointer(
                        tail[j].0,
                    );
                    assert(es[head.len() + w].0 == parent_pointer(es[i].0));
                }
            }
        }
    }
}

/// Ancestor presence: in the flat map of any value, every entry that is
/// not the root entry has its parent pointer — the pointer cut at the
/// `/` that starts its last segment — present as a key of the map.
pub proof fn lemma_ancestor_present(m: JsonModel, i: int)
    requires
        0 <= i < entries_of(m, Seq::empty()).len(),
        entries_of(m, Seq::empty())[i].0 != Seq::<char>::empty(),
    ensures
        has_key(entries_of(m, Seq::empty()), parent_pointer(entries_of(m, Seq::empty())[i].0)),
{
    lemma_entries_parents(m, Seq::empty());
    lemma_flatten_root(m);
    let es = entries_of(m, Seq::empty());
    if es[i].0 == Seq::<char>::empty() {
        assert(false);
    }
}

/// Whether `m` is shallow: null, a scalar, or an empty container. Every
/// value of a flat map is shallow.
pub open spec fn shallow(m: JsonModel) -> bool {
    match m {
        JsonModel::Arr(a) => a.len() == 0,
        JsonModel::Obj(fs) => fs.len() == 0,
        _ => true,
    }
}

/// Every value stored in a flat map is shallow: a leaf verbatim or an
/// empty placeholder, never a container with members.
pub proof fn lemma_entries_shallow(m: JsonModel, p: Seq<char>)
    ensures
        forall|i: int| 0 <= i < entries_of(m, p).len() ==> shallow(#[trigger] entries_of(m, p)[i].1),
    decreases m, 0int,
{
    let es = entries_of(m, p);
    match m {
        JsonModel::Arr(a) => {
            lemma_arr_shallow(a, p, 0);
            assert forall|i: int| 0 <= i < es.len() implies shallow(#[trigger] es[i].1) by {
                if i > 0 {
                    assert(es[i] == arr_entries(a, p, 0)[i - 1]);
                }
            }
        },
        JsonModel::Obj(fs) => {
            lemma_obj_shallow(fs, p, 0);
            assert forall|i: int| 0 <= i < es.len() implies shallow(#[trigger] es[i].1) by {
                if i > 0 {
                    assert(es[i] == obj_entries(fs, p, 0)[i - 1]);
                }
            }
        },
        _ => {},
    }
}

/// Shallowness of the entries of the array elements `a[k..]`.
proof fn lemma_arr_shallow(a: Seq<JsonModel>, p: Seq<char>, k: int)
    requires
        0 <= k <= a.len(),
    ensures
        forall|i: int|
            0 <= i < arr_entries(a, p, k).len() ==> shallow(#[trigger] arr_entries(a, p, k)[i].1),
    decreases a, a.len() - k,
{
    if k < a.len() {
        let es = arr_entries(a, p, k);
        let head = entries_of(a[k], p + index_segment(k as nat));
        let tail = arr_entries(a, p, k + 1);
        lemma_entries_shallow(a[k], p + index_segment(k as nat));
        lemma_arr_shallow(a, p, k + 1);
        assert forall|i: int| 0 <= i < es.len() implies shallow(#[trigger] es[i].1) by {
            if i < head.len() {
                assert(es[i] == head[i]);
            } else {
                assert(es[i] == tail[i - head.len()]);
            }
        }
    }
}

/// Shallowness of the entries of the object members `fs[k..]`.
proof fn lemma_obj_shallow(fs: Seq<(Seq<char>, JsonModel)>, p: Seq<char>, k: int)
    requires
        0 <= k <= fs.len(),
    ensures
        forall|i: int|
            0 <= i < obj_entries(fs, p, k).len() ==> shallow(#[trigger] obj_entries(fs, p, k)[i].1),
    decreases fs, fs.len() - k,
{
    if k < fs.len() {
        let es = obj_entries(fs, p, k);
        let head = entries_of(fs[k].1, p + key_segment(fs[k].0));
        let tail = obj_entries(fs, p, k + 1);
        lemma_entries_shallow(fs[k].1, p + key_segment(fs[k].0));
        lemma_obj_shallow(fs, p, k + 1);
        assert forall|i: int| 0 <= i < es.len() implies shallow(#[trigger] es[i].1) by {
            if i < head.len() {
                assert(es[i] == head[i]);
            } else {
                assert(es[i] == tail[i - head.len()]);
            }
        }
    }
}

/// A shallow value contributes exactly one entry.
proof fn lemma_shallow_single_entry(m: JsonModel, p: Seq<char>)
    requires
        shallow(m),
    ensures
        entries_of(m, p).len() == 1,
{
    match m {
        JsonModel::Arr(a) => {
            assert(arr_entries(a, p, 0) == Seq::<(Seq<char>, JsonModel)>::empty());
        },
        JsonModel::Obj(fs) => {
            assert(obj_entries(fs, p, 0) == Seq::<(Seq<char>, JsonModel)>::empty());
        },
        _ => {},
    }
}

/// An object whose member values are all shallow flattens to one entry
/// per member, plus its own placeholder.
proof fn lemma_obj_entries_len(fs: Seq<(Seq<char>, JsonModel)>, p: Seq<char>, k: int)
    requires
        0 <= k <= fs.len(),
        forall|j: int| 0 <= j < fs.len() ==> shallow(#[trigger] fs[j].1),
    ensures
        obj_entries(fs, p, k).len() == fs.len() - k,
    decreases fs.len() - k,
{
    if k < fs.len() {
        lemma_shallow_single_entry(fs[k].1, p + key_segment(fs[k].0));
        lemma_obj_entries_len(fs, p, k + 1);
    }
}

/// Flattening is not idempotent: the flat map of a flat map is never the
/// flat map itself — re-flattening adds a fresh root entry, so the two
/// objects differ already in how many members they have.
pub proof fn lemma_not_idempotent(m: JsonModel)
    ensures
        flatten_model(flatten_model(m)) != flatten_model(m),
{
    let es = entries_of(m, Seq::empty());
    let f = flatten_model(m);
    lemma_entries_head(m, Seq::empty());
    lemma_entries_shallow(m, Seq::empty());
    lemma_obj_entries_len(es, Seq::empty(), 0);
    assert(entries_of(f, Seq::empty()).len() == 1 + es.len());
    if flatten_model(f) == f {
        assert(entries_of(f, Seq::empty()) == es);
        assert(false);
    }
}

} // verus!
