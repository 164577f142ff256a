//! Dictionary encoding for string columns: the distinct values in
//! first-occurrence order, plus one small integer code per cell. Decoding
//! the codes through the dictionary gives back exactly the original cells.

use vstd::prelude::*;
use crate::value::{Value, ValueV};

verus! {

/// The distinct string values of the cells, in first-occurrence order.
pub open spec fn distinct_strs(cells: Seq<ValueV>) -> Seq<Seq<char>>
    decreases cells.len(),
{
    if cells.len() == 0 {
        Seq::empty()
    } else {
        let d = distinct_strs(cells.drop_last());
        match cells.last() {
            ValueV::Str(s) => if d.contains(s) {
                d
            } else {
                d.push(s)
            },
            _ => d,
        }
    }
}

/// Decoding maps a negative code to `Null` and any other code to the
/// dictionary entry it indexes.
pub open spec fn dict_decoded(codes: Seq<int>, dict: Seq<Seq<char>>) -> Seq<ValueV> {
    codes.map_values(
        |c: int|
            if c < 0 {
                ValueV::Null
            } else {
                ValueV::Str(dict[c])
            },
    )
}

/// The dictionary never grows beyond the number of cells and holds each
/// value once.
pub proof fn lemma_distinct_strs(cells: Seq<ValueV>)
    ensures
        distinct_strs(cells).len() <= cells.len(),
        forall|a: int, b: int|
            0 <= a < b < distinct_strs(cells).len() ==> distinct_strs(cells)[a] != distinct_strs(
                cells,
            )[b],
    decreases cells.len(),
{
    if cells.len() > 0 {
        lemma_distinct_strs(cells.drop_last());
        let d = distinct_strs(cells);
        let dp = distinct_strs(cells.drop_last());
        assert forall|a: int, b: int| 0 <= a < b < d.len() implies d[a] != d[b] by {
            if b < dp.len() {
                assert(dp[a] != dp[b]);
            } else if d.len() > dp.len() {
                match cells.last() {
                    ValueV::Str(s) => {
                        assert(!dp.contains(s));
                        assert(d[a] == dp[a]);
                    },
                    _ => {},
                }
            }
        }
    }
}

/// Encode a column of strings and nulls as codes into a dictionary of its
/// distinct values, in first-occurrence order: `Null` becomes -1, and every
/// string becomes the position of its value in the dictionary, so decoding
/// gives back exactly the original cells.
pub fn dict_encode(cells: &Vec<Value>) -> (r: (Vec<i64>, Vec<String>))
    requires
        forall|i: int|
            0 <= i < cells@.len() ==> ((#[trigger] cells.deep_view()[i]) is Str
                || cells.deep_view()[i] is Null),
        cells@.len() <= i64::MAX,
    ensures
        r.1.deep_view() == distinct_strs(cells.deep_view()),
        r.0@.len() == cells@.len(),
        forall|i: int|
            0 <= i < cells@.len() ==> (#[trigger] cells.deep_view()[i] matches ValueV::Str(s)
                ==> 0 <= r.0@[i] < r.1@.len() && r.1.deep_view()[r.0@[i] as int] == s),
        forall|i: int|
            0 <= i < cells@.len() ==> ((#[trigger] cells.deep_view()[i]) is Null ==> r.0@[i]
                == -1),
        dict_decoded(r.0@.map_values(|c: i64| c as int), r.1.deep_view()) == cells.deep_view(),
{
    let ghost cv = cells.deep_view();
    let mut codes: Vec<i64> = Vec::new();
    let mut dict: Vec<String> = Vec::new();
    let mut i: usize = 0;
    while i < cells.len()
        invariant
            cv == cells.deep_view(),
            forall|j: int|
                0 <= j < cells@.len() ==> ((#[trigger] cv[j]) is Str || cv[j] is Null),
            cells@.len() <= i64::MAX,
            0 <= i <= cells@.len(),
            dict.deep_view() == distinct_strs(cv.take(i as int)),
            dict@.len() <= i,
            codes@.len() == i,
            forall|j: int|
                0 <= j < i ==> (#[trigger] cv[j] matches ValueV::Str(s) ==> 0 <= codes@[j]
                    < dict@.len() && dict.deep_view()[codes@[j] as int] == s),
            forall|j: int| 0 <= j < i ==> ((#[trigger] cv[j]) is Null ==> codes@[j] == -1),
        decreases cells.len() - i,
    {
        proof {
            assert(cv.take(i as int + 1).drop_last() =~= cv.take(i as int));
            assert(cv.take(i as int + 1).last() == cv[i as int]);
        }
        match &cells[i] {
            Value::Str(s) => {
                let mut j: usize = 0;
                let mut found = false;
                let mut code: usize = 0;
                while j < dict.len() && !found
                    invariant
                        cv == cells.deep_view(),
                        0 <= i < cells@.len(),
                        0 <= j <= dict@.len(),
                        cv[i as int] matches ValueV::Str(sv) && sv == cells@[i as int]->Str_0@,
                        s@ == cells@[i as int]->Str_0@,
                        found ==> 0 <= code < dict@.len() && dict.deep_view()[code as int]
                            == cells@[i as int]->Str_0@,
                        !found ==> forall|k: int|
                            0 <= k < j ==> dict.deep_view()[k] != cells@[i as int]->Str_0@,
                    decreases dict@.len() - j + (if found {
                        0int
                    } else {
                        1int
                    }),
                {
                    if dict[j] == *s {
                        found = true;
                        code = j;
                        proof {
                            assert(dict.deep_view()[j as int] == cells@[i as int]->Str_0@);
                        }
                    } else {
                        j += 1;
                    }
                }
                if found {
                    proof {
                        assert(dict.deep_view().contains(s@)) by {
                            assert(dict.deep_view()[code as int] == s@);
                        }
                    }
                    codes.push(code as i64);
                } else {
                    proof {
                        assert(!dict.deep_view().contains(s@)) by {
                            if dict.deep_view().contains(s@) {
                                let k = choose|k: int|
                                    0 <= k < dict.deep_view().len() && dict.deep_view()[k] == s@;
                                assert(dict.deep_view()[k] != s@);
                            }
                        }
                    }
                    let code_new = dict.len();
                    dict.push(s.clone());
                    codes.push(code_new as i64);
                    proof {
                        assert forall|k: int|
                            0 <= k < dict.deep_view().len() implies dict.deep_view()[k]
                            == distinct_strs(cv.take(i as int)).push(s@)[k] by {}
                        assert(dict.deep_view() =~= distinct_strs(cv.take(i as int)).push(s@));
                    }
                }
            },
            Value::Null => {
                codes.push(-1);
            },
            _ => {
                proof {
                    assert(false);
                }
            },
        }
        i += 1;
    }
    proof {
        assert(cv.take(cells@.len() as int) =~= cv);
        assert forall|i2: int|
            0 <= i2 < codes@.len() implies dict_decoded(
            codes@.map_values(|c: i64| c as int),
            dict.deep_view(),
        )[i2] == cv[i2] by {
            if cv[i2] is Null {
                assert(codes@[i2] == -1);
            }
        }
        assert(dict_decoded(codes@.map_values(|c: i64| c as int), dict.deep_view()) =~= cv);
    }
    (codes, dict)
}

/// Decode dictionary codes back into cells: a negative code is `Null`, any
/// other indexes the dictionary.
pub fn dict_decode(codes: &Vec<i64>, dict: &Vec<String>) -> (out: Vec<Value>)
    requires
        forall|i: int| 0 <= i < codes@.len() ==> #[trigger] codes@[i] < dict@.len(),
        dict@.len() <= usize::MAX,
    ensures
        out.deep_view() == dict_decoded(
            codes@.map_values(|c: i64| c as int),
            dict.deep_view(),
        ),
{
    let mut out: Vec<Value> = Vec::new();
    let mut i: usize = 0;
    while i < codes.len()
        invariant
            forall|j: int| 0 <= j < codes@.len() ==> #[trigger] codes@[j] < dict@.len(),
            dict@.len() <= usize::MAX,
            0 <= i <= codes@.len(),
            out@.len() == i,
            forall|j: int|
                0 <= j < i ==> out@[j]@ == (if codes@[j] < 0 {
                    ValueV::Null
                } else {
                    ValueV::Str(dict.deep_view()[codes@[j] as int])
                }),
        decreases codes.len() - i,
    {
        let c = codes[i];
        if c < 0 {
            out.push(Value::Null);
        } else {
            proof {
                assert(0 <= codes@[i as int] < dict@.len());
                assert(codes@[i as int] <= usize::MAX);
            }
            out.push(Value::Str(dict[c as usize].clone()));
            proof {
                assert((c as usize) as int == c as int);
            }
            proof {
                assert(out@[i as int]@ == ValueV::Str(dict.deep_view()[codes@[i as int] as int]));
            }
        }
        i += 1;
    }
    proof {
        assert forall|j: int| 0 <= j < out.deep_view().len() implies out.deep_view()[j]
            == dict_decoded(codes@.map_values(|c: i64| c as int), dict.deep_view())[j] by {
            assert(out@[j]@ == out.deep_view()[j]);
        }
        assert(out.deep_view() =~= dict_decoded(
            codes@.map_values(|c: i64| c as int),
            dict.deep_view(),
        ));
    }
    out
}

} // verus!
