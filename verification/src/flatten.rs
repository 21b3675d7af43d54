//! The flattener: a depth-first traversal that emits one entry per
//! visited node, keyed by the node's RFC 6901 pointer.

use vstd::prelude::*;

use crate::pointer::escape;
use crate::pointer::escape_seq;
use crate::pointer::push_char;
use crate::value::JsonModel;
use crate::value::Json;
use crate::value::arr_models;
use crate::value::entries_model;
use crate::value::value_model;

verus! {

broadcast use vstd::seq::axiom_seq_index_decreases;

/// The decimal digit character for `d`.
pub open spec fn digit_of(d: nat) -> char {
    if d == 0 {
        '0'
    } else if d == 1 {
        '1'
    } else if d == 2 {
        '2'
    } else if d == 3 {
        '3'
    } else if d == 4 {
        '4'
    } else if d == 5 {
        '5'
    } else if d == 6 {
        '6'
    } else if d == 7 {
        '7'
    } else if d == 8 {
        '8'
    } else {
        '9'
    }
}

/// The decimal notation of `n`, most significant digit first, without
/// leading zeros (`0` itself is the single digit `0`).
pub open spec fn dec_str(n: nat) -> Seq<char>
    decreases n,
{
    if n < 10 {
        seq![digit_of(n)]
    } else {
        proof {
            assert(n / 10 < n) by (nonlinear_arith)
                requires
                    n >= 10,
            ;
        }
        dec_str(n / 10).push(digit_of(n % 10))
    }
}

/// The pointer segment appended for the array element at index `i`.
pub open spec fn index_segment(i: nat) -> Seq<char> {
    seq!['/'] + dec_str(i)
}

/// The pointer segment appended for the object member named `k`.
pub open spec fn key_segment(k: Seq<char>) -> Seq<char> {
    seq!['/'] + escape_seq(k)
}

/// The flat-map entries produced by visiting the node `m` at pointer `p`:
/// first `p` itself, mapped to `m` when `m` is a scalar or null and to an
/// empty placeholder when `m` is a container, then the entries of `m`'s
/// children in order, each under `p` extended by one segment.
pub open spec fn entries_of(m: JsonModel, p: Seq<char>) -> Seq<(Seq<char>, JsonModel)>
    decreases m, 0int,
{
    match m {
        JsonModel::Arr(a) => seq![(p, JsonModel::Arr(Seq::empty()))] + arr_entries(a, p, 0),
        JsonModel::Obj(fs) => seq![(p, JsonModel::Obj(Seq::empty()))] + obj_entries(fs, p, 0),
        _ => seq![(p, m)],
    }
}

/// The entries of the array elements `a[i..]` under parent pointer `p`.
pub open spec fn arr_entries(a: Seq<JsonModel>, p: Seq<char>, i: int) -> Seq<
    (Seq<char>, JsonModel),
>
    decreases a, a.len() - i,
{
    if 0 <= i < a.len() {
        entries_of(a[i], p + index_segment(i as nat)) + arr_entries(a, p, i + 1)
    } else {
        Seq::empty()
    }
}

/// The entries of the object members `fs[i..]` under parent pointer `p`.
pub open spec fn obj_entries(fs: Seq<(Seq<char>, JsonModel)>, p: Seq<char>, i: int) -> Seq<
    (Seq<char>, JsonModel),
>
    decreases fs, fs.len() - i,
{
    if 0 <= i < fs.len() {
        entries_of(fs[i].1, p + key_segment(fs[i].0)) + obj_entries(fs, p, i + 1)
    } else {
        Seq::empty()
    }
}

/// The whole flat map of `m`: a single-level object whose members are the
/// entries of `m` under the root pointer, in traversal order.
pub open spec fn flatten_model(m: JsonModel) -> JsonModel {
    JsonModel::Obj(entries_of(m, Seq::empty()))
}

/// The decimal digit character for `d`.
fn digit_char(d: usize) -> (c: char)
    requires
        d < 10,
    ensures
        c == digit_of(d as nat),
{
    if d == 0 {
        '0'
    } else if d == 1 {
        '1'
    } else if d == 2 {
        '2'
    } else if d == 3 {
        '3'
    } else if d == 4 {
        '4'
    } else if d == 5 {
        '5'
    } else if d == 6 {
        '6'
    } else if d == 7 {
        '7'
    } else if d == 8 {
        '8'
    } else {
        '9'
    }
}

/// Append the decimal notation of `n` to `out`.
fn push_dec(n: usize, out: &mut String)
    ensures
        final(out)@ == old(out)@ + dec_str(n as nat),
    decreases n,
{
    if n >= 10 {
        push_dec(n / 10, out);
        let c = digit_char(n % 10);
        push_char(out, c);
        proof {
            assert((n / 10) as nat == n as nat / 10);
            assert((n % 10) as nat == n as nat % 10);
            assert(out@ =~= old(out)@ + dec_str(n as nat));
        }
    } else {
        let c = digit_char(n);
        push_char(out, c);
        proof {
            assert(out@ =~= old(out)@ + dec_str(n as nat));
        }
    }
}

/// Visit `value` at pointer `pointer`, appending its entries to `out`.
#[verifier::loop_isolation(false)]
fn visit(value: &Json, pointer: &String, out: &mut Vec<(String, Json)>)
    ensures
        entries_model(final(out)@) == entries_model(old(out)@) + entries_of(value@, pointer@),
    decreases *value,
{
    match value {
        Json::Null => {
            let p = pointer.clone();
            out.push((p, Json::Null));
            proof {
                assert(entries_model(out@) =~= entries_model(old(out)@) + entries_of(
                    value@,
                    pointer@,
                ));
            }
        },
        Json::Bool(b) => {
            let p = pointer.clone();
            out.push((p, Json::Bool(*b)));
            proof {
                assert(entries_model(out@) =~= entries_model(old(out)@) + entries_of(
                    value@,
                    pointer@,
                ));
            }
        },
        Json::Number(n) => {
            let p = pointer.clone();
            out.push((p, Json::Number(n.clone())));
            proof {
                assert(entries_model(out@) =~= entries_model(old(out)@) + entries_of(
                    value@,
                    pointer@,
                ));
            }
        },
        Json::Str(s) => {
            let p = pointer.clone();
            out.push((p, Json::Str(s.clone())));
            proof {
                assert(entries_model(out@) =~= entries_model(old(out)@) + entries_of(
                    value@,
                    pointer@,
                ));
            }
        },
        Json::Array(arr) => {
            let p = pointer.clone();
            let placeholder: Vec<Json> = Vec::new();
            out.push((p, Json::Array(placeholder)));
            let ghost va = arr_models(arr@);
            proof {
                assert(arr_models(Seq::<Json>::empty()) =~= Seq::<JsonModel>::empty());
                assert(value@ == JsonModel::Arr(va));
                assert(entries_model(out@) + arr_entries(va, pointer@, 0) =~= entries_model(
                    old(out)@,
                ) + entries_of(value@, pointer@));
            }
            let n = arr.len();
            let mut i: usize = 0;
            while i < n
                invariant
                    i <= n,
                    n == arr@.len(),
                    va == arr_models(arr@),
                    va.len() == n,
                    value@ == JsonModel::Arr(va),
                    entries_model(out@) + arr_entries(va, pointer@, i as int) == entries_model(
                        old(out)@,
                    ) + entries_of(value@, pointer@),
                decreases n - i,
            {
                let mut cp = pointer.clone();
                push_char(&mut cp, '/');
                push_dec(i, &mut cp);
                proof {
                    assert(cp@ =~= pointer@ + index_segment(i as nat));
                }
                let ghost pre = out@;
                proof {
                    assert(decreases_to!(*value => value->Array_0));
                    assert(decreases_to!(*arr => arr@));
                    assert(decreases_to!(arr@ => arr@[i as int]));
                    assert(decreases_to!(*value => arr@[i as int]));
                }
                visit(&arr[i], &cp, out);
                proof {
                    assert(va[i as int] == value_model(arr@[i as int]));
                    assert(arr_entries(va, pointer@, i as int) == entries_of(
                        va[i as int],
                        pointer@ + index_segment(i as nat),
                    ) + arr_entries(va, pointer@, i as int + 1));
                    assert(entries_model(out@) + arr_entries(va, pointer@, i as int + 1)
                        =~= entries_model(pre) + arr_entries(va, pointer@, i as int));
                }
                i = i + 1;
            }
            proof {
                assert(arr_entries(va, pointer@, n as int) == Seq::<(Seq<char>, JsonModel)>::empty());
                assert(entries_model(out@) =~= entries_model(out@) + arr_entries(
                    va,
                    pointer@,
                    n as int,
                ));
            }
        },
        Json::Object(fields) => {
            let p = pointer.clone();
            let placeholder: Vec<(String, Json)> = Vec::new();
            out.push((p, Json::Object(placeholder)));
            let ghost vf = entries_model(fields@);
            proof {
                assert(entries_model(Seq::<(String, Json)>::empty()) =~= Seq::<
                    (Seq<char>, JsonModel),
                >::empty());
                assert(value@ == JsonModel::Obj(vf));
                assert(entries_model(out@) + obj_entries(vf, pointer@, 0) =~= entries_model(
                    old(out)@,
                ) + entries_of(value@, pointer@));
            }
            let n = fields.len();
            let mut i: usize = 0;
            while i < n
                invariant
                    i <= n,
                    n == fields@.len(),
                    vf == entries_model(fields@),
                    vf.len() == n,
                    value@ == JsonModel::Obj(vf),
                    entries_model(out@) + obj_entries(vf, pointer@, i as int) == entries_model(
                        old(out)@,
                    ) + entries_of(value@, pointer@),
                decreases n - i,
            {
                let mut cp = pointer.clone();
                push_char(&mut cp, '/');
                let esc = escape(fields[i].0.as_str());
                cp.append(esc.as_str());
                proof {
                    assert(cp@ =~= pointer@ + key_segment(fields@[i as int].0@));
                }
                let ghost pre = out@;
                proof {
                    assert(decreases_to!(*value => value->Object_0));
                    assert(decreases_to!(*fields => fields@));
                    assert(decreases_to!(fields@ => fields@[i as int]));
                    assert(decreases_to!(fields@[i as int] => fields@[i as int].1));
                    assert(decreases_to!(*value => fields@[i as int].1));
                }
                visit(&fields[i].1, &cp, out);
                proof {
                    assert(vf[i as int] == (fields@[i as int].0@, value_model(
                        fields@[i as int].1,
                    )));
                    assert(obj_entries(vf, pointer@, i as int) == entries_of(
                        vf[i as int].1,
                        pointer@ + key_segment(vf[i as int].0),
                    ) + obj_entries(vf, pointer@, i as int + 1));
                    assert(entries_model(out@) + obj_entries(vf, pointer@, i as int + 1)
                        =~= entries_model(pre) + obj_entries(vf, pointer@, i as int));
                }
                i = i + 1;
            }
            proof {
                assert(obj_entries(vf, pointer@, n as int) == Seq::<(Seq<char>, JsonModel)>::empty());
                assert(entries_model(out@) =~= entries_model(out@) + obj_entries(
                    vf,
                    pointer@,
                    n as int,
                ));
            }
        },
    }
}

/// Flatten a JSON value: the result is a single-level JSON object that
/// maps the RFC 6901 pointer of every node of `value` to that node's
/// value — the node itself for null and scalars, an empty placeholder
/// for arrays and objects — in depth-first traversal order, root first.
/// Total: it succeeds for every value.
pub fn from_json(value: &Json) -> (r: Json)
    ensures
        r@ == flatten_model(value@),
{
    let mut target: Vec<(String, Json)> = Vec::new();
    let root = String::new();
    visit(value, &root, &mut target);
    proof {
        assert(entries_model(Seq::<(String, Json)>::empty()) =~= Seq::<
            (Seq<char>, JsonModel),
        >::empty());
        assert(entries_model(target@) =~= entries_of(value@, Seq::empty()));
    }
    Json::Object(target)
}

} // verus!
