use vstd::prelude::*;

pub mod accumulate;
pub mod bytes;
pub mod chunk;
pub mod format;
pub mod measurement;
pub mod merge;
pub mod parse;
pub mod text;

verus! {

use crate::accumulate::{
    acc_model, all_lines_ok, comb_maps, lemma_acc_model_append, lemma_acc_model_count,
    lemma_count_key_le_len, lemma_lines_len_bound, process_chunk, records_of, entries_map,
};
use crate::bytes::{ends_terminated, lemma_lines_append, lines_of, TERM};
use crate::chunk::{chunks_aligned, chunks_chain, get_chunks};
use crate::format::{format_results, output_of_entries};
use crate::measurement::Measurement;
use crate::merge::{sorted_entries, GlobalAcc};
use crate::parse::valid_line;

/// The failure kinds of a run. None is recovered: the first failure aborts the
/// whole computation before any output is produced.
#[derive(Clone, Copy, PartialEq, Eq, Structural, Debug)]
pub enum Error {
    /// The input could not be opened or read.
    IoFailure,
    /// A line lacks the delimiter or its value segment is not a valid number.
    MalformedRecord,
    /// An accumulator could not be grown.
    ResourceExhaustion,
}

/// One scan step: cutting the scanned prefix at a clean point splits lines
/// and records cleanly.
proof fn lemma_step_split(data: Seq<u8>, done: int, e: int)
    requires
        0 <= done <= e <= data.len(),
        ends_terminated(data.take(done)),
    ensures
        lines_of(data.take(e)) == lines_of(data.take(done)) + lines_of(data.subrange(done, e)),
        records_of(data.take(e)) == records_of(data.take(done)) + records_of(
            data.subrange(done, e),
        ),
{
    assert(data.take(e) =~= data.take(done) + data.subrange(done, e));
    lemma_lines_append(data.take(done), data.subrange(done, e));
    assert(records_of(data.take(e)) =~= records_of(data.take(done)) + records_of(
        data.subrange(done, e),
    ));
}

/// A malformed line inside one range makes the whole buffer malformed.
proof fn lemma_step_err(data: Seq<u8>, done: int, e: int)
    requires
        0 <= done <= e <= data.len(),
        ends_terminated(data.take(done)),
        e == data.len() || (e >= 1 && data[e - 1] == TERM),
        !all_lines_ok(data.subrange(done, e)),
    ensures
        !all_lines_ok(data),
{
    lemma_step_split(data, done, e);
    let pc = data.subrange(done, e);
    let j = choose|j: int| 0 <= j < lines_of(pc).len() && !valid_line(#[trigger] lines_of(pc)[j]);
    assert(data.take(e) + data.skip(e) =~= data);
    if e < data.len() {
        assert(data.take(e)[e - 1] == TERM);
        lemma_lines_append(data.take(e), data.skip(e));
    } else {
        assert(data.take(e) =~= data);
    }
    assert(lines_of(data.take(e))[lines_of(data.take(done)).len() + j] == lines_of(pc)[j]);
    assert(lines_of(data)[lines_of(data.take(done)).len() + j] == lines_of(pc)[j]);
}

/// A well-formed step extends the scanned prefix: its fold is the merge of
/// the fold so far with the range's fold, every line so far is well-formed,
/// and no key's total count can overflow.
proof fn lemma_step_ok(data: Seq<u8>, done: int, e: int)
    requires
        data.len() <= usize::MAX,
        0 <= done <= e <= data.len(),
        ends_terminated(data.take(done)),
        all_lines_ok(data.take(done)),
        all_lines_ok(data.subrange(done, e)),
    ensures
        all_lines_ok(data.take(e)),
        acc_model(records_of(data.take(e))) == comb_maps(
            acc_model(records_of(data.take(done))),
            acc_model(records_of(data.subrange(done, e))),
        ),
        forall|k: Seq<u8>|
            #[trigger] acc_model(records_of(data.take(done))).dom().contains(k) && acc_model(
                records_of(data.subrange(done, e)),
            ).dom().contains(k) ==> acc_model(records_of(data.take(done)))[k].count + acc_model(
                records_of(data.subrange(done, e)),
            )[k].count <= u64::MAX,
{
    lemma_step_split(data, done, e);
    let pc = data.subrange(done, e);
    let rs_done = records_of(data.take(done));
    let rs_pc = records_of(pc);
    let rs_e = records_of(data.take(e));
    lemma_acc_model_append(rs_done, rs_pc);
    assert forall|i: int| 0 <= i < lines_of(data.take(e)).len() implies valid_line(
        #[trigger] lines_of(data.take(e))[i],
    ) by {
        if i < lines_of(data.take(done)).len() {
            assert(lines_of(data.take(e))[i] == lines_of(data.take(done))[i]);
        } else {
            assert(lines_of(data.take(e))[i] == lines_of(pc)[i - lines_of(data.take(done)).len()]);
        }
    }
    lemma_lines_len_bound(data.take(e));
    assert forall|k: Seq<u8>|
        #[trigger] acc_model(rs_done).dom().contains(k) && acc_model(rs_pc).dom().contains(
            k,
        ) implies acc_model(rs_done)[k].count + acc_model(rs_pc)[k].count <= u64::MAX by {
        assert(acc_model(rs_e).dom().contains(k));
        assert(acc_model(rs_e)[k].count == acc_model(rs_done)[k].count + acc_model(rs_pc)[k].count);
        lemma_acc_model_count(rs_e, k);
        lemma_count_key_le_len(rs_e, k);
        assert(rs_e.len() == lines_of(data.take(e)).len());
        assert(3 * lines_of(data.take(e)).len() <= data.len());
    }
}

/// The whole computation over one buffer: divide it into at most
/// `num_threads` line-aligned ranges, scan each range, merge the partition
/// mappings, and render the merged result sorted ascending by key. Returns
/// the rendered output exactly when every line of the buffer is well-formed,
/// and aborts with `MalformedRecord`, emitting nothing, otherwise. The
/// output does not depend on `num_threads`: it renders the fold of the
/// buffer's records, which any line-aligned partitioning yields.
#[verifier::rlimit(100)]
#[verifier::spinoff_prover]
pub fn run(data: &[u8], num_threads: usize) -> (r: Result<Vec<u8>, Error>)
    requires
        num_threads >= 1,
    ensures
        r is Ok <==> all_lines_ok(data@),
        r matches Ok(out) ==> exists|es: Seq<(Vec<u8>, Measurement)>|
            sorted_entries(es) && entries_map(es) == acc_model(records_of(data@)) && out@
                == output_of_entries(es),
        r matches Err(e) ==> e == Error::MalformedRecord,
{
    let n = data.len();
    let chunks = get_chunks(data, num_threads);
    let cn = chunks.len();
    proof {
        assert forall|i: int| 0 <= i < cn - 1 implies (#[trigger] chunks@[i]).1 >= 1 && data@[
            chunks@[i].1 - 1
        ] == TERM by {
            assert(chunks_aligned(chunks@, data@, data@.len() as int / num_threads as int, cn - 1));
        }
    }
    let mut global = GlobalAcc::new();
    let mut ci: usize = 0;
    let ghost mut done: int = 0;
    while ci < cn
        invariant
            0 <= ci <= cn,
            cn == chunks@.len(),
            1 <= cn,
            n == data@.len(),
            chunks_chain(chunks@, n as int),
            forall|i: int| 0 <= i < cn - 1 ==> (#[trigger] chunks@[i]).1 >= 1 && data@[chunks@[i].1
                - 1] == TERM,
            chunks@[0].0 == 0,
            chunks@[cn - 1].1 == n,
            done == if ci == 0 {
                0int
            } else {
                chunks@[ci - 1].1 as int
            },
            0 <= done <= n,
            ci < cn ==> ends_terminated(data@.take(done)),
            all_lines_ok(data@.take(done)),
            global.wf(),
            global@ == acc_model(records_of(data@.take(done))),
        decreases cn - ci,
    {
        let c = chunks[ci];
        let s = c.0;
        let e = c.1;
        proof {
            if ci > 0 {
                assert(chunks@[ci - 1].1 == chunks@[ci as int].0);
            }
            assert(s as int == done);
            assert(s <= e <= n);
        }
        let piece = &data[s..e];
        let ghost pc = data@.subrange(s as int, e as int);
        match process_chunk(piece) {
            Err(err) => {
                proof {
                    assert(e == n || (e >= 1 && data@[e - 1] == TERM));
                    lemma_step_err(data@, done, e as int);
                }
                return Err(err);
            },
            Ok(part) => {
                proof {
                    lemma_step_ok(data@, done, e as int);
                    if ci < cn - 1 {
                        assert(data@.take(e as int)[e - 1] == TERM);
                    }
                }
                global.merge_into(&part);
                proof {
                    done = e as int;
                }
            },
        }
        ci = ci + 1;
    }
    proof {
        assert(done == n);
        assert(data@.take(done) =~= data@);
    }
    let out = format_results(&global);
    proof {
        let es = global.entries@;
        assert(sorted_entries(es) && entries_map(es) == acc_model(records_of(data@)) && out@
            == output_of_entries(es));
    }
    Ok(out)
}

} // verus!
