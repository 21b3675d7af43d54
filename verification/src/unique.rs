//! No pointer of the flat map repeats: paths through distinct indices or
//! distinct member names give distinct pointer strings, so the flat map
//! really is a map when every object of the input has distinct names.

use vstd::prelude::*;

use crate::flatten::arr_entries;
use crate::flatten::dec_str;
use crate::flatten::digit_of;
use crate::flatten::entries_of;
use crate::flatten::index_segment;
use crate::flatten::key_segment;
use crate::flatten::obj_entries;
use crate::pointer::escape_seq;
use crate::pointer::lemma_unescape_escape;
use crate::value::JsonModel;

verus! {

broadcast use vstd::seq::axiom_seq_index_decreases;

/// Whether all pointers of the entry list differ pairwise.
pub open spec fn pointers_distinct(es: Seq<(Seq<char>, JsonModel)>) -> bool {
    forall|i: int, j: int| 0 <= i < j < es.len() ==> es[i].0 != es[j].0
}

/// Whether the member names of an object differ pairwise.
pub open spec fn distinct_names(fs: Seq<(Seq<char>, JsonModel)>) -> bool {
    forall|i: int, j: int| 0 <= i < j < fs.len() ==> fs[i].0 != fs[j].0
}

/// Whether a value is well formed: every object anywhere in it has
/// pairwise distinct member names.
pub open spec fn wf(m: JsonModel) -> bool
    decreases m,
{
    match m {
        JsonModel::Arr(a) => forall|i: int| 0 <= i < a.len() ==> wf(#[trigger] a[i]),
        JsonModel::Obj(fs) => distinct_names(fs) && forall|i: int|
            0 <= i < fs.len() ==> wf(#[trigger] fs[i].1),
        _ => true,
    }
}

/// Whether `q` strictly extends the pointer `p`: `p` is a proper prefix
/// and the next character opens a new segment.
pub open spec fn extends(p: Seq<char>, q: Seq<char>) -> bool {
    q.len() > p.len() && q.take(p.len() as int) == p && q[p.len() as int] == '/'
}

/// The position of the first `/` of `q` at or after `e`, or `q.len()`
/// when there is none.
pub open spec fn first_slash_from(q: Seq<char>, e: int) -> int
    decreases q.len() - e,
{
    if e < 0 || e >= q.len() {
        q.len() as int
    } else if q[e] == '/' {
        e
    } else {
        first_slash_from(q, e + 1)
    }
}

/// The first segment token of `q` after the prefix `p`: the characters
/// between `p`'s closing `/` and the next `/` (or the end of `q`).
pub open spec fn seg_token(q: Seq<char>, p: Seq<char>) -> Seq<char> {
    q.subrange(p.len() as int + 1, first_slash_from(q, p.len() as int + 1))
}

/// A stretch of slash-free characters ending at a `/` (or at the end)
/// pins down where the first slash is.
proof fn lemma_first_slash_pos(q: Seq<char>, s: int, e: int)
    requires
        0 <= s <= e <= q.len(),
        forall|i: int| s <= i < e ==> q[i] != '/',
        e == q.len() || q[e] == '/',
    ensures
        first_slash_from(q, s) == e,
    decreases e - s,
{
    if s < e {
        lemma_first_slash_pos(q, s + 1, e);
    }
}

/// Decimal notation is never empty.
proof fn lemma_dec_str_len(n: nat)
    ensures
        dec_str(n).len() >= 1,
        n >= 10 ==> dec_str(n).len() >= 2,
    decreases n,
{
    if n >= 10 {
        lemma_dec_str_len(n / 10);
    }
}

/// Two numbers with the same decimal notation are the same number.
proof fn lemma_dec_str_injective(n1: nat, n2: nat)
    requires
        dec_str(n1) == dec_str(n2),
    ensures
        n1 == n2,
    decreases n1,
{
    lemma_dec_str_len(n1);
    lemma_dec_str_len(n2);
    if n1 < 10 && n2 < 10 {
        assert(dec_str(n1)[0] == digit_of(n1));
        assert(dec_str(n2)[0] == digit_of(n2));
    } else if n1 >= 10 && n2 >= 10 {
        assert(dec_str(n1).last() == digit_of(n1 % 10));
        assert(dec_str(n2).last() == digit_of(n2 % 10));
        assert(n1 % 10 == n2 % 10);
        assert(dec_str(n1).drop_last() =~= dec_str(n1 / 10));
        assert(dec_str(n2).drop_last() =~= dec_str(n2 / 10));
        assert(n1 / 10 < n1) by (nonlinear_arith)
            requires
                n1 >= 10,
        ;
        lemma_dec_str_injective(n1 / 10, n2 / 10);
        assert(n1 == 10 * (n1 / 10) + n1 % 10) by (nonlinear_arith);
        assert(n2 == 10 * (n2 / 10) + n2 % 10) by (nonlinear_arith);
    } else if n1 < 10 {
        assert(dec_str(n1).len() == 1);
        assert(false);
    } else {
        assert(dec_str(n2).len() == 1);
        assert(false);
    }
}

/// Two member names with the same escaped form are the same name.
pub proof fn lemma_escape_injective(k1: Seq<char>, k2: Seq<char>)
    requires
        escape_seq(k1) == escape_seq(k2),
    ensures
        k1 == k2,
{
    lemma_unescape_escape(k1);
    lemma_unescape_escape(k2);
}

/// Extension is transitive, also through an exact block root.
proof fn lemma_extends_trans(p: Seq<char>, q: Seq<char>, r: Seq<char>)
    requires
        extends(p, q),
        r == q || extends(q, r),
    ensures
        extends(p, r),
{
    if r != q {
        assert(r.take(p.len() as int) =~= p) by {
            assert(forall|t: int|
                0 <= t < p.len() ==> r.take(q.len() as int)[t] == #[trigger] r[t]);
        }
        assert(r[p.len() as int] == r.take(q.len() as int)[p.len() as int]);
    }
}

/// Every entry of a node's list sits at the node's own pointer or at a
/// pointer that strictly extends it.
proof fn lemma_entries_extend(m: JsonModel, p: Seq<char>)
    ensures
        forall|i: int|
            0 <= i < entries_of(m, p).len() ==> (entries_of(m, p)[i].0 == p || extends(
                p,
                #[trigger] entries_of(m, p)[i].0,
            )),
    decreases m, 0int,
{
    let es = entries_of(m, p);
    match m {
        JsonModel::Arr(a) => {
            lemma_arr_extends(a, p, 0);
            assert forall|i: int|
                0 <= i < es.len() implies (es[i].0 == p || extends(p, #[trigger] es[i].0)) by {
                if i > 0 {
                    assert(es[i] == arr_entries(a, p, 0)[i - 1]);
                }
            }
        },
        JsonModel::Obj(fs) => {
            lemma_obj_extends(fs, p, 0);
            assert forall|i: int|
                0 <= i < es.len() implies (es[i].0 == p || extends(p, #[trigger] es[i].0)) by {
                if i > 0 {
                    assert(es[i] == obj_entries(fs, p, 0)[i - 1]);
                }
            }
        },
        _ => {
            assert(es[0].0 == p);
        },
    }
}

/// A segment pointer `p + '/' + tok` strictly extends `p`.
proof fn lemma_segment_extends(p: Seq<char>, tok: Seq<char>)
    ensures
        extends(p, p + (seq!['/'] + tok)),
{
    let pk = p + (seq!['/'] + tok);
    assert(pk.take(p.len() as int) =~= p);
    assert(pk[p.len() as int] == '/');
}

/// Every pointer among the entries of elements `a[k..]` extends `p`.
proof fn lemma_arr_extends(a: Seq<JsonModel>, p: Seq<char>, k: int)
    requires
        0 <= k <= a.len(),
    ensures
        forall|i: int|
            0 <= i < arr_entries(a, p, k).len() ==> extends(
                p,
                #[trigger] arr_entries(a, p, k)[i].0,
            ),
    decreases a, a.len() - k,
{
    if k < a.len() {
        let es = arr_entries(a, p, k);
        let pk = p + index_segment(k as nat);
        let head = entries_of(a[k], pk);
        let tail = arr_entries(a, p, k + 1);
        lemma_entries_extend(a[k], pk);
        lemma_arr_extends(a, p, k + 1);
        assert(index_segment(k as nat) == seq!['/'] + dec_str(k as nat));
        lemma_segment_extends(p, dec_str(k as nat));
        assert forall|i: int| 0 <= i < es.len() implies extends(p, #[trigger] es[i].0) by {
            if i < head.len() {
                assert(es[i] == head[i]);
                lemma_extends_trans(p, pk, head[i].0);
            } else {
                assert(es[i] == tail[i - head.len()]);
            }
        }
    }
}

/// Every pointer among the entries of members `fs[k..]` extends `p`.
proof fn lemma_obj_extends(fs: Seq<(Seq<char>, JsonModel)>, p: Seq<char>, k: int)
    requires
        0 <= k <= fs.len(),
    ensures
        forall|i: int|
            0 <= i < obj_entries(fs, p, k).len() ==> extends(
                p,
                #[trigger] obj_entries(fs, p, k)[i].0,
            ),
    decreases fs, fs.len() - k,
{
    if k < fs.len() {
        let es = obj_entries(fs, p, k);
        let pk = p + key_segment(fs[k].0);
        let head = entries_of(fs[k].1, pk);
        let tail = obj_entries(fs, p, k + 1);
        lemma_entries_extend(fs[k].1, pk);
        lemma_obj_extends(fs, p, k + 1);
        assert(key_segment(fs[k].0) == seq!['/'] + escape_seq(fs[k].0));
        lemma_segment_extends(p, escape_seq(fs[k].0));
        assert forall|i: int| 0 <= i < es.len() implies extends(p, #[trigger] es[i].0) by {
            if i < head.len() {
                assert(es[i] == head[i]);
                lemma_extends_trans(p, pk, head[i].0);
            } else {
                assert(es[i] == tail[i - head.len()]);
            }
        }
    }
}

/// Inside the block of the child reached by the segment `/tok`, every
/// pointer's first segment after `p` reads back exactly `tok`.
proof fn lemma_seg_token_of_block(p: Seq<char>, tok: Seq<char>, q: Seq<char>)
    requires
        forall|i: int| 0 <= i < tok.len() ==> tok[i] != '/',
        q == p + (seq!['/'] + tok) || extends(p + (seq!['/'] + tok), q),
    ensures
        seg_token(q, p) == tok,
{
    let pk = p + (seq!['/'] + tok);
    let s = p.len() as int + 1;
    let e = s + tok.len();
    assert(pk.len() == e);
    if q == pk {
        assert forall|i: int| s <= i < e implies q[i] != '/' by {
            assert(q[i] == tok[i - s]);
        }
        lemma_first_slash_pos(q, s, e);
    } else {
        assert(q.take(pk.len() as int) == pk);
        assert forall|i: int| s <= i < e implies q[i] != '/' by {
            assert(q[i] == q.take(pk.len() as int)[i]);
            assert(pk[i] == tok[i - s]);
        }
        assert(q[e] == '/');
        lemma_first_slash_pos(q, s, e);
    }
    assert(seg_token(q, p) =~= tok) by {
        assert forall|t: int| 0 <= t < tok.len() implies seg_token(q, p)[t] == tok[t] by {
            if q == pk {
                assert(q[s + t] == tok[t]);
            } else {
                assert(q[s + t] == q.take(pk.len() as int)[s + t]);
                assert(pk[s + t] == tok[t]);
            }
        }
    }
}

/// Pairwise distinctness of the pointers of the entries of `a[k..]`,
/// with each entry's first segment naming the element it came from.
proof fn lemma_arr_unique(a: Seq<JsonModel>, p: Seq<char>, k: int)
    requires
        0 <= k <= a.len(),
        forall|i: int| 0 <= i < a.len() ==> wf(#[trigger] a[i]),
    ensures
        pointers_distinct(arr_entries(a, p, k)),
        forall|i: int|
            0 <= i < arr_entries(a, p, k).len() ==> exists|j: int|
                k <= j < a.len() && seg_token(#[trigger] arr_entries(a, p, k)[i].0, p)
                    == #[trigger] dec_str(j as nat),
    decreases a, a.len() - k,
{
    if k < a.len() {
        let es = arr_entries(a, p, k);
        let pk = p + index_segment(k as nat);
        let head = entries_of(a[k], pk);
        let tail = arr_entries(a, p, k + 1);
        lemma_pointers_unique(a[k], pk);
        lemma_arr_unique(a, p, k + 1);
        lemma_entries_extend(a[k], pk);
        crate::laws::lemma_dec_str_no_slash(k as nat);
        assert(index_segment(k as nat) == seq!['/'] + dec_str(k as nat));
        assert forall|i: int|
            0 <= i < head.len() implies seg_token(#[trigger] head[i].0, p) == dec_str(
            k as nat,
        ) by {
            lemma_seg_token_of_block(p, dec_str(k as nat), head[i].0);
        }
        assert forall|i: int, j: int| 0 <= i < j < es.len() implies es[i].0 != es[j].0 by {
            if j < head.len() {
                assert(es[i] == head[i]);
                assert(es[j] == head[j]);
            } else if i >= head.len() {
                assert(es[i] == tail[i - head.len()]);
                assert(es[j] == tail[j - head.len()]);
            } else {
                assert(es[i] == head[i]);
                assert(es[j] == tail[j - head.len()]);
                if es[i].0 == es[j].0 {
                    let jj = choose|jj: int|
                        k + 1 <= jj < a.len() && seg_token(tail[j - head.len()].0, p)
                            == #[trigger] dec_str(jj as nat);
                    lemma_dec_str_injective(k as nat, jj as nat);
                    assert(false);
                }
            }
        }
        assert forall|i: int|
            0 <= i < es.len() implies exists|j: int|
            k <= j < a.len() && seg_token(#[trigger] es[i].0, p) == #[trigger] dec_str(
                j as nat,
            ) by {
            if i < head.len() {
                assert(es[i] == head[i]);
                assert(k <= k < a.len() && seg_token(es[i].0, p) == dec_str(k as nat));
            } else {
                assert(es[i] == tail[i - head.len()]);
                let jj = choose|jj: int|
                    k + 1 <= jj < a.len() && seg_token(tail[i - head.len()].0, p)
                        == #[trigger] dec_str(jj as nat);
                assert(k <= jj < a.len() && seg_token(es[i].0, p) == dec_str(jj as nat));
            }
        }
    }
}

/// Pairwise distinctness of the pointers of the entries of `fs[k..]`,
/// with each entry's first segment naming the member it came from.
proof fn lemma_obj_unique(fs: Seq<(Seq<char>, JsonModel)>, p: Seq<char>, k: int)
    requires
        0 <= k <= fs.len(),
        distinct_names(fs),
        forall|i: int| 0 <= i < fs.len() ==> wf(#[trigger] fs[i].1),
    ensures
        pointers_distinct(obj_entries(fs, p, k)),
        forall|i: int|
            0 <= i < obj_entries(fs, p, k).len() ==> exists|j: int|
                k <= j < fs.len() && seg_token(#[trigger] obj_entries(fs, p, k)[i].0, p)
                    == #[trigger] escape_seq(fs[j].0),
    decreases fs, fs.len() - k,
{
    if k < fs.len() {
        let es = obj_entries(fs, p, k);
        let pk = p + key_segment(fs[k].0);
        let head = entries_of(fs[k].1, pk);
        let tail = obj_entries(fs, p, k + 1);
        lemma_pointers_unique(fs[k].1, pk);
        lemma_obj_unique(fs, p, k + 1);
        lemma_entries_extend(fs[k].1, pk);
        crate::pointer::lemma_escape_no_slash(fs[k].0);
        assert(key_segment(fs[k].0) == seq!['/'] + escape_seq(fs[k].0));
        assert forall|i: int|
            0 <= i < head.len() implies seg_token(#[trigger] head[i].0, p) == escape_seq(
            fs[k].0,
        ) by {
            lemma_seg_token_of_block(p, escape_seq(fs[k].0), head[i].0);
        }
        assert forall|i: int, j: int| 0 <= i < j < es.len() implies es[i].0 != es[j].0 by {
            if j < head.len() {
                assert(es[i] == head[i]);
                assert(es[j] == head[j]);
            } else if i >= head.len() {
                assert(es[i] == tail[i - head.len()]);
                assert(es[j] == tail[j - head.len()]);
            } else {
                assert(es[i] == head[i]);
                assert(es[j] == tail[j - head.len()]);
                if es[i].0 == es[j].0 {
                    let jj = choose|jj: int|
                        k + 1 <= jj < fs.len() && seg_token(tail[j - head.len()].0, p)
                            == #[trigger] escape_seq(fs[jj].0);
                    lemma_escape_injective(fs[k].0, fs[jj].0);
                    assert(false);
                }
            }
        }
        assert forall|i: int|
            0 <= i < es.len() implies exists|j: int|
            k <= j < fs.len() && seg_token(#[trigger] es[i].0, p) == #[trigger] escape_seq(
                fs[j].0,
            ) by {
            if i < head.len() {
                assert(es[i] == head[i]);
                assert(k <= k < fs.len() && seg_token(es[i].0, p) == escape_seq(fs[k].0));
            } else {
                assert(es[i] == tail[i - head.len()]);
                let jj = choose|jj: int|
                    k + 1 <= jj < fs.len() && seg_token(tail[i - head.len()].0, p)
                        == #[trigger] escape_seq(fs[jj].0);
                assert(k <= jj < fs.len() && seg_token(es[i].0, p) == escape_seq(fs[jj].0));
            }
        }
    }
}

/// In the entries of a well-formed value, no two entries share a
/// pointer.
pub proof fn lemma_pointers_unique(m: JsonModel, p: Seq<char>)
    requires
        wf(m),
    ensures
        pointers_distinct(entries_of(m, p)),
    decreases m, 0int,
{
    let es = entries_of(m, p);
    match m {
        JsonModel::Arr(a) => {
            lemma_arr_unique(a, p, 0);
            lemma_arr_extends(a, p, 0);
            let blk = arr_entries(a, p, 0);
            assert forall|i: int, j: int| 0 <= i < j < es.len() implies es[i].0 != es[j].0 by {
                assert(es[j] == blk[j - 1]);
                assert(extends(p, blk[j - 1].0));
                if i > 0 {
                    assert(es[i] == blk[i - 1]);
                }
            }
        },
        JsonModel::Obj(fs) => {
            lemma_obj_unique(fs, p, 0);
            lemma_obj_extends(fs, p, 0);
            let blk = obj_entries(fs, p, 0);
            assert forall|i: int, j: int| 0 <= i < j < es.len() implies es[i].0 != es[j].0 by {
                assert(es[j] == blk[j - 1]);
                assert(extends(p, blk[j - 1].0));
                if i > 0 {
                    assert(es[i] == blk[i - 1]);
                }
            }
        },
        _ => {},
    }
}

/// The flat map of a well-formed value — one in which every object's
/// member names are pairwise distinct — never repeats a pointer: its
/// entries really form a map, and no entry is ever overwritten.
pub proof fn lemma_flat_map_keys_unique(m: JsonModel)
    requires
        wf(m),
    ensures
        pointers_distinct(entries_of(m, Seq::empty())),
{
    lemma_pointers_unique(m, Seq::empty());
}

} // verus!
