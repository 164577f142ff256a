//! The partition reader: select the partition entries of a directory
//! listing by a glob pattern, and concatenate parsed partitions into one
//! contiguous table under the first partition's schema.

use vstd::prelude::*;
use crate::table::{Table, TableV, Column, ColumnV};
use crate::errors::{Error, ErrorV};
use crate::seqs::mask_seq;

verus! {

/// Whether glob pattern compilation accepts the pattern. Named result of
/// `glob::Pattern::new`: a function of the pattern text alone.
pub uninterp spec fn glob_pat_ok(pattern: Seq<char>) -> bool;

/// Whether a name matches a glob pattern. Named result of
/// `glob::Pattern::matches`: a function of the two texts alone.
pub uninterp spec fn glob_matches(pattern: Seq<char>, name: Seq<char>) -> bool;

/// Relies on glob::Pattern::new, which accepts or rejects the pattern text,
/// and glob::Pattern::matches, which decides whether `name` matches it;
/// both depend only on their text arguments.
#[verifier::external_body]
fn glob_match(pattern: &str, name: &str) -> (r: Option<bool>)
    ensures
        r is Some <==> glob_pat_ok(pattern@),
        (r matches Some(b) ==> b == glob_matches(pattern@, name@)),
{
    match glob::Pattern::new(pattern) {
        Ok(p) => Some(p.matches(name)),
        Err(_) => None,
    }
}

/// Which of the names match the pattern.
pub open spec fn partition_mask(pattern: Seq<char>, names: Seq<Seq<char>>) -> Seq<bool> {
    Seq::new(names.len(), |i: int| glob_matches(pattern, names[i]))
}

/// Keep, in their original order, the directory entries that match the glob
/// pattern. Fails exactly when the pattern itself is malformed.
pub fn match_partitions(names: &Vec<String>, pattern: &str) -> (r: Result<Vec<String>, Error>)
    ensures
        match r {
            Ok(out) => glob_pat_ok(pattern@) && out.deep_view() == mask_seq(
                names.deep_view(),
                partition_mask(pattern@, names.deep_view()),
            ),
            Err(e) => !glob_pat_ok(pattern@) && e@ == ErrorV::Format(pattern@),
        },
{
    let ghost nv = names.deep_view();
    let ghost pm = partition_mask(pattern@, nv);
    match glob_match(pattern, "") {
        Some(_) => {},
        None => {
            return Err(Error::Format { detail: pattern.to_owned() });
        },
    }
    let mut out: Vec<String> = Vec::new();
    let mut i: usize = 0;
    while i < names.len()
        invariant
            nv == names.deep_view(),
            pm == partition_mask(pattern@, nv),
            0 <= i <= names@.len(),
            glob_pat_ok(pattern@),
            out.deep_view() == mask_seq(nv.take(i as int), pm.take(i as int)),
        decreases names.len() - i,
    {
        proof {
            crate::seqs::lemma_mask_take_step(nv, pm, i as int);
        }
        match glob_match(pattern, names[i].as_str()) {
            Some(true) => {
                out.push(names[i].clone());
                proof {
                    assert(out.deep_view().drop_last() =~= mask_seq(
                        nv.take(i as int),
                        pm.take(i as int),
                    ));
                    assert(out.deep_view() =~= mask_seq(nv.take(i as int), pm.take(i as int))
                        + seq![nv[i as int]]);
                }
            },
            Some(false) => {
                proof {
                    assert(mask_seq(nv.take(i as int + 1), pm.take(i as int + 1)) =~= mask_seq(
                        nv.take(i as int),
                        pm.take(i as int),
                    ));
                }
            },
            None => {
                proof {
                    assert(false);
                }
            },
        }
        i += 1;
    }
    proof {
        assert(nv.take(names@.len() as int) =~= nv);
        assert(pm.take(names@.len() as int) =~= pm);
    }
    Ok(out)
}

/// The concatenation of the partitions, first partition's schema
/// authoritative: equal schemas are required, rows are appended in order,
/// and each partition stays one storage fragment.
pub open spec fn spec_stack(parts: Seq<TableV>) -> Result<TableV, ErrorV>
    decreases parts.len(),
{
    if parts.len() == 0 {
        Ok(TableV { cols: Seq::empty(), nrows: 0, frags: seq![0int] })
    } else if parts.len() == 1 {
        Ok(parts[0])
    } else {
        match spec_stack(parts.drop_last()) {
            Err(e) => Err(e),
            Ok(acc) => {
                let last = parts.last();
                if acc.schema() != last.schema() {
                    Err(ErrorV::SchemaMismatch)
                } else if acc.nrows + last.nrows > usize::MAX {
                    Err(ErrorV::Overflow)
                } else {
                    Ok(
                        TableV {
                            cols: Seq::new(
                                acc.cols.len(),
                                |c: int|
                                    ColumnV {
                                        name: acc.cols[c].name,
                                        ty: acc.cols[c].ty,
                                        cells: acc.cols[c].cells + last.cols[c].cells,
                                    },
                            ),
                            nrows: acc.nrows + last.nrows,
                            frags: acc.frags + last.frags,
                        },
                    )
                }
            },
        }
    }
}

/// The loaded table: the stacked partitions, rechunked into one contiguous
/// fragment.
pub open spec fn spec_load(parts: Seq<TableV>) -> Result<TableV, ErrorV> {
    match spec_stack(parts) {
        Ok(t) => Ok(TableV { cols: t.cols, nrows: t.nrows, frags: seq![t.nrows] }),
        Err(e) => Err(e),
    }
}

/// Concatenate the parsed partitions into one table and consolidate its
/// storage. Zero partitions give the empty table; a schema differing from
/// the first partition's gives `SchemaMismatch`.
pub fn load_partitions(parts: &Vec<Table>) -> (r: Result<Table, Error>)
    requires
        forall|i: int| 0 <= i < parts@.len() ==> (#[trigger] parts@[i]).wf(),
    ensures
        match r {
            Ok(out) => {
                &&& spec_load(parts.deep_view()) is Ok
                &&& out@ == spec_load(parts.deep_view())->Ok_0
                &&& out.wf()
            },
            Err(e) => spec_load(parts.deep_view()) == Err::<TableV, ErrorV>(e@),
        },
{
    let ghost pv = parts.deep_view();
    if parts.len() == 0 {
        let mut frags: Vec<usize> = Vec::new();
        frags.push(0);
        let t = Table { cols: Vec::new(), nrows: 0, frags };
        proof {
            assert(t@.cols =~= Seq::<ColumnV>::empty());
            assert(t@.frags =~= seq![0int]);
            assert(t@.frags.drop_last() =~= Seq::<int>::empty());
            assert(crate::seqs::sum_ints(Seq::<int>::empty()) == 0);
            assert(t@ =~~= TableV { cols: Seq::empty(), nrows: 0, frags: seq![0int] });
        }
        return Ok(t);
    }
    let mut acc = parts[0].duplicate();
    proof {
        assert(pv[0] == parts@[0]@);
        assert(pv.take(1)[0] == pv[0]);
        assert(spec_stack(pv.take(1)) == Ok::<TableV, ErrorV>(pv[0]));
        assert(acc@ == pv[0]);
        assert(parts@[0].wf());
    }
    let mut i: usize = 1;
    while i < parts.len()
        invariant
            pv == parts.deep_view(),
            forall|j: int| 0 <= j < parts@.len() ==> (#[trigger] parts@[j]).wf(),
            1 <= i <= parts@.len(),
            spec_stack(pv.take(i as int)) is Ok,
            acc@ == spec_stack(pv.take(i as int))->Ok_0,
            acc.wf(),
        decreases parts.len() - i,
    {
        proof {
            assert(pv.take(i as int + 1).drop_last() =~= pv.take(i as int));
            assert(pv.take(i as int + 1).last() == pv[i as int]);
            assert(pv[i as int] == parts@[i as int]@);
        }
        let next = match acc.vstack(&parts[i]) {
            Ok(t) => t,
            Err(e) => {
                proof {
                    lemma_stack_err_persist(pv, i as int + 1);
                }
                return Err(e);
            },
        };
        proof {
            let st = spec_stack(pv.take(i as int + 1))->Ok_0;
            assert forall|c: int| 0 <= c < next@.cols.len() implies next@.cols[c]
                == st.cols[c] by {
                assert(next@.cols[c].cells == acc@.cols[c].cells + parts@[i as int]@.cols[c]
                    .cells);
            }
            assert(next@.cols =~= st.cols);
            assert(next@ =~~= st);
        }
        acc = next;
        i += 1;
    }
    proof {
        assert(pv.take(parts@.len() as int) =~= pv);
    }
    let out = acc.rechunk();
    proof {
        assert(out@ =~~= spec_load(pv)->Ok_0);
    }
    Ok(out)
}

/// Once stacking has failed on a prefix, the whole sequence fails the same
/// way.
pub proof fn lemma_stack_err_persist(parts: Seq<TableV>, k: int)
    requires
        2 <= k <= parts.len(),
        spec_stack(parts.take(k)) is Err,
    ensures
        spec_stack(parts) == spec_stack(parts.take(k)),
    decreases parts.len() - k,
{
    if k < parts.len() {
        assert(parts.take(k + 1).drop_last() =~= parts.take(k));
        lemma_stack_err_persist(parts, k + 1);
    } else {
        assert(parts.take(k) =~= parts);
    }
}

} // verus!
