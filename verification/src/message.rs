//! Division of the data codewords into blocks, computation of the error
//! correction codewords of each block, and interleaving of the blocks.
use vstd::prelude::*;
use vstd::slice::slice_to_vec;
use crate::gf::{generator_poly, get_generator_polynomial, gf_add, poly_remainder, remainder, zeros};
use crate::poly_laws::{
    lemma_generator_monic, lemma_rem_fold_len, lemma_remainder_additive, poly_add,
};
use crate::versions::{
    block_ok, blocks_table, data_codewords_table, lemma_blocks_sizes, lemma_blocks_table,
    lemma_total_codewords_table,
    lemma_total_data_append, total_codewords, total_codewords_at, total_data, ErrorCorrectionBlock,
    Version,
};

verus! {

/// The position in the data codewords where block `b` starts.
pub open spec fn block_offset(blocks: Seq<ErrorCorrectionBlock>, b: int) -> nat {
    total_data(blocks.take(b))
}

/// The data codewords of block `b`.
pub open spec fn data_block(data: Seq<u8>, blocks: Seq<ErrorCorrectionBlock>, b: int) -> Seq<u8> {
    data.subrange(
        block_offset(blocks, b) as int,
        block_offset(blocks, b) + blocks[b].data_codewords,
    )
}

/// The error correction codewords of block `b`: the remainder of its data
/// codewords by the generator polynomial of its number of error correction
/// codewords.
pub open spec fn error_correction_block(data: Seq<u8>, blocks: Seq<ErrorCorrectionBlock>, b: int) -> Seq<u8> {
    poly_remainder(
        data_block(data, blocks, b),
        generator_poly((blocks[b].total_codewords - blocks[b].data_codewords + 1) as nat),
    )
}

/// Codeword `i` of each of the first `nb` sequences that have one, in order.
pub open spec fn column(seqs: Seq<Seq<u8>>, i: int, nb: nat) -> Seq<u8>
    decreases nb,
{
    if nb == 0 {
        Seq::empty()
    } else {
        column(seqs, i, (nb - 1) as nat) + if i < seqs[nb - 1].len() {
            seq![seqs[nb - 1][i]]
        } else {
            Seq::empty()
        }
    }
}

/// The first `rounds` columns of `seqs`, one after the other.
pub open spec fn interleave(seqs: Seq<Seq<u8>>, rounds: nat) -> Seq<u8>
    decreases rounds,
{
    if rounds == 0 {
        Seq::empty()
    } else {
        interleave(seqs, (rounds - 1) as nat) + column(seqs, rounds - 1, seqs.len())
    }
}

/// The final message of a version: the data blocks interleaved, then the
/// error correction blocks interleaved, each for as many rounds as the last
/// block has codewords of that kind.
pub open spec fn message(data: Seq<u8>, index: nat) -> Seq<u8> {
    let blocks = blocks_table(index);
    let last = blocks.last();
    let data_blocks = Seq::new(blocks.len(), |b: int| data_block(data, blocks, b));
    let ec_blocks = Seq::new(blocks.len(), |b: int| error_correction_block(data, blocks, b));
    interleave(data_blocks, last.data_codewords as nat) + interleave(
        ec_blocks,
        (last.total_codewords - last.data_codewords) as nat,
    )
}

proof fn lemma_column_len(seqs: Seq<Seq<u8>>, i: int, nb: nat)
    ensures
        column(seqs, i, nb).len() <= nb,
    decreases nb,
{
    if nb > 0 {
        lemma_column_len(seqs, i, (nb - 1) as nat);
    }
}

proof fn lemma_interleave_len(seqs: Seq<Seq<u8>>, rounds: nat)
    ensures
        interleave(seqs, rounds).len() <= rounds * seqs.len(),
    decreases rounds,
{
    if rounds > 0 {
        lemma_interleave_len(seqs, (rounds - 1) as nat);
        lemma_column_len(seqs, rounds - 1, seqs.len());
        assert((rounds - 1) * seqs.len() + seqs.len() == rounds * seqs.len()) by (nonlinear_arith);
    }
}

/// The message of every version has at most 3807 codewords.
pub proof fn lemma_message_len(data: Seq<u8>, index: nat)
    requires
        index < crate::versions::VERSION_COUNT,
    ensures
        message(data, index).len() <= 3807,
{
    let blocks = blocks_table(index);
    lemma_blocks_table(index);
    let last = blocks.last();
    assert(block_ok(blocks[blocks.len() - 1]));
    let n = blocks.len();
    let d = last.data_codewords as nat;
    let e = (last.total_codewords - last.data_codewords) as nat;
    let db = Seq::new(blocks.len(), |b: int| data_block(data, blocks, b));
    let eb = Seq::new(blocks.len(), |b: int| error_correction_block(data, blocks, b));
    lemma_interleave_len(db, d);
    lemma_interleave_len(eb, e);
    assert(d * n + e * n <= 3807) by (nonlinear_arith)
        requires
            d + e <= 47,
            n <= 81,
    ;
}

/// The number of the first `nb` sequences of `seqs` that have a codeword `i`.
spec fn longer_than(seqs: Seq<Seq<u8>>, i: int, nb: nat) -> nat
    decreases nb,
{
    if nb == 0 {
        0
    } else {
        longer_than(seqs, i, (nb - 1) as nat) + if i < seqs[nb - 1].len() {
            1nat
        } else {
            0nat
        }
    }
}

/// The sum of the lengths of the first `nb` sequences, each cut at `rounds`.
spec fn capped_len(seqs: Seq<Seq<u8>>, rounds: nat, nb: nat) -> nat
    decreases nb,
{
    if nb == 0 {
        0
    } else {
        capped_len(seqs, rounds, (nb - 1) as nat) + if seqs[nb - 1].len() <= rounds {
            seqs[nb - 1].len()
        } else {
            rounds
        }
    }
}

proof fn lemma_column_len_exact(seqs: Seq<Seq<u8>>, i: int, nb: nat)
    ensures
        column(seqs, i, nb).len() == longer_than(seqs, i, nb),
    decreases nb,
{
    if nb > 0 {
        lemma_column_len_exact(seqs, i, (nb - 1) as nat);
    }
}

proof fn lemma_capped_step(seqs: Seq<Seq<u8>>, rounds: nat, nb: nat)
    requires
        rounds >= 1,
    ensures
        capped_len(seqs, rounds, nb) == capped_len(seqs, (rounds - 1) as nat, nb) + longer_than(
            seqs,
            rounds - 1,
            nb,
        ),
    decreases nb,
{
    if nb > 0 {
        lemma_capped_step(seqs, rounds, (nb - 1) as nat);
    }
}

proof fn lemma_capped_zero(seqs: Seq<Seq<u8>>, nb: nat)
    ensures
        capped_len(seqs, 0, nb) == 0,
    decreases nb,
{
    if nb > 0 {
        lemma_capped_zero(seqs, (nb - 1) as nat);
    }
}

proof fn lemma_interleave_len_exact(seqs: Seq<Seq<u8>>, rounds: nat)
    ensures
        interleave(seqs, rounds).len() == capped_len(seqs, rounds, seqs.len()),
    decreases rounds,
{
    if rounds == 0 {
        lemma_capped_zero(seqs, seqs.len());
    } else {
        lemma_interleave_len_exact(seqs, (rounds - 1) as nat);
        lemma_column_len_exact(seqs, rounds - 1, seqs.len());
        lemma_capped_step(seqs, rounds, seqs.len());
    }
}

proof fn lemma_capped_data(data: Seq<u8>, blocks: Seq<ErrorCorrectionBlock>, rounds: nat, nb: nat)
    requires
        nb <= blocks.len(),
        forall|b: int|
            0 <= b < nb ==> (#[trigger] data_block(data, blocks, b)).len() == blocks[b].data_codewords
                && blocks[b].data_codewords <= rounds,
    ensures
        capped_len(Seq::new(blocks.len(), |b: int| data_block(data, blocks, b)), rounds, nb)
            == total_data(blocks.take(nb as int)),
    decreases nb,
{
    let db = Seq::new(blocks.len(), |b: int| data_block(data, blocks, b));
    if nb > 0 {
        lemma_capped_data(data, blocks, rounds, (nb - 1) as nat);
        assert(blocks.take(nb as int).drop_last() == blocks.take(nb - 1));
        assert(db[nb - 1] == data_block(data, blocks, nb - 1));
    } else {
        assert(blocks.take(0).len() == 0);
    }
}

proof fn lemma_capped_uniform(seqs: Seq<Seq<u8>>, e: nat, nb: nat)
    requires
        nb <= seqs.len(),
        forall|b: int| 0 <= b < nb ==> (#[trigger] seqs[b]).len() == e,
    ensures
        capped_len(seqs, e, nb) == nb * e,
    decreases nb,
{
    if nb > 0 {
        lemma_capped_uniform(seqs, e, (nb - 1) as nat);
        assert(nb * e == (nb - 1) * e + e) by (nonlinear_arith);
    } else {
        assert(nb * e == 0) by (nonlinear_arith)
            requires
                nb == 0,
        ;
    }
}

proof fn lemma_total_codewords_split(blocks: Seq<ErrorCorrectionBlock>, e: nat, nb: nat)
    requires
        nb <= blocks.len(),
        forall|b: int|
            0 <= b < nb ==> (#[trigger] blocks[b]).total_codewords - blocks[b].data_codewords == e,
    ensures
        total_codewords(blocks.take(nb as int)) == total_data(blocks.take(nb as int)) + nb * e,
    decreases nb,
{
    if nb > 0 {
        lemma_total_codewords_split(blocks, e, (nb - 1) as nat);
        assert(blocks.take(nb as int).drop_last() == blocks.take(nb - 1));
        assert(blocks.take(nb as int).last() == blocks[nb - 1]);
        assert(nb * e == (nb - 1) * e + e) by (nonlinear_arith);
    } else {
        assert(blocks.take(0).len() == 0);
        assert(nb * e == 0) by (nonlinear_arith)
            requires
                nb == 0,
        ;
    }
}

/// The message of a version holds every codeword of its blocks: as many
/// codewords as the blocks hold, data and error correction together.
pub proof fn lemma_message_holds_all_codewords(data: Seq<u8>, index: nat)
    requires
        index < crate::versions::VERSION_COUNT,
        data.len() == data_codewords_table()[index as int],
    ensures
        message(data, index).len() == total_codewords(blocks_table(index)),
{
    let blocks = blocks_table(index);
    lemma_blocks_table(index);
    let n = blocks.len();
    let last = blocks.last();
    let d = last.data_codewords as nat;
    let e = (last.total_codewords - last.data_codewords) as nat;
    let db = Seq::new(n, |b: int| data_block(data, blocks, b));
    let eb = Seq::new(n, |b: int| error_correction_block(data, blocks, b));
    assert forall|b: int| 0 <= b < n implies (#[trigger] data_block(data, blocks, b)).len()
        == blocks[b].data_codewords && blocks[b].data_codewords <= d by {
        lemma_offsets(blocks, b);
    }
    assert forall|b: int| 0 <= b < n implies (#[trigger] eb[b]).len() == e by {
        assert(block_ok(blocks[b]));
        let ec = (blocks[b].total_codewords - blocks[b].data_codewords) as nat;
        let g = generator_poly(ec + 1);
        lemma_generator_monic(ec + 1);
        lemma_rem_fold_len(zeros(ec), data_block(data, blocks, b), g);
        assert(eb[b] == poly_remainder(data_block(data, blocks, b), g));
    }
    lemma_interleave_len_exact(db, d);
    lemma_interleave_len_exact(eb, e);
    lemma_capped_data(data, blocks, d, n);
    lemma_capped_uniform(eb, e, n);
    lemma_total_codewords_split(blocks, e, n);
    assert(blocks.take(n as int) == blocks);
}

proof fn lemma_offsets(blocks: Seq<ErrorCorrectionBlock>, b: int)
    requires
        0 <= b < blocks.len(),
    ensures
        block_offset(blocks, b + 1) == block_offset(blocks, b) + blocks[b].data_codewords,
        block_offset(blocks, b + 1) <= total_data(blocks),
{
    assert(blocks.take(b + 1).drop_last() == blocks.take(b));
    lemma_total_data_append(blocks.take(b + 1), blocks.skip(b + 1));
    assert(blocks.take(b + 1) + blocks.skip(b + 1) == blocks);
}

proof fn lemma_poly_add_concat(p1: Seq<u8>, q1: Seq<u8>, p2: Seq<u8>, q2: Seq<u8>)
    requires
        p1.len() == p2.len(),
        q1.len() == q2.len(),
    ensures
        poly_add(p1 + q1, p2 + q2) == poly_add(p1, p2) + poly_add(q1, q2),
{
    assert(poly_add(p1 + q1, p2 + q2) =~= poly_add(p1, p2) + poly_add(q1, q2));
}

/// `z` holds the sums of the sequences of `x` and `y`, which have the same
/// lengths.
spec fn sums_of(x: Seq<Seq<u8>>, y: Seq<Seq<u8>>, z: Seq<Seq<u8>>) -> bool {
    &&& x.len() == y.len()
    &&& z.len() == x.len()
    &&& forall|b: int| 0 <= b < x.len() ==> (#[trigger] x[b]).len() == y[b].len() && z[b] == poly_add(x[b], y[b])
}

proof fn lemma_column_additive(x: Seq<Seq<u8>>, y: Seq<Seq<u8>>, z: Seq<Seq<u8>>, i: int, nb: nat)
    requires
        sums_of(x, y, z),
        nb <= x.len(),
        0 <= i,
    ensures
        column(x, i, nb).len() == column(y, i, nb).len(),
        column(z, i, nb) == poly_add(column(x, i, nb), column(y, i, nb)),
    decreases nb,
{
    if nb > 0 {
        lemma_column_additive(x, y, z, i, (nb - 1) as nat);
        let b = nb - 1;
        assert(x[b].len() == y[b].len());
        if i < x[b].len() {
            assert(z[b][i] == gf_add(x[b][i], y[b][i]));
            lemma_poly_add_concat(column(x, i, (nb - 1) as nat), seq![x[b][i]], column(y, i, (nb - 1) as nat), seq![y[b][i]]);
            assert(poly_add(seq![x[b][i]], seq![y[b][i]]) =~= seq![z[b][i]]);
        } else {
            lemma_poly_add_concat(column(x, i, (nb - 1) as nat), Seq::empty(), column(y, i, (nb - 1) as nat), Seq::empty());
            assert(poly_add(Seq::<u8>::empty(), Seq::<u8>::empty()) =~= Seq::<u8>::empty());
        }
    }
}

proof fn lemma_interleave_additive(x: Seq<Seq<u8>>, y: Seq<Seq<u8>>, z: Seq<Seq<u8>>, rounds: nat)
    requires
        sums_of(x, y, z),
    ensures
        interleave(x, rounds).len() == interleave(y, rounds).len(),
        interleave(z, rounds) == poly_add(interleave(x, rounds), interleave(y, rounds)),
    decreases rounds,
{
    if rounds > 0 {
        lemma_interleave_additive(x, y, z, (rounds - 1) as nat);
        lemma_column_additive(x, y, z, rounds - 1, x.len());
        lemma_poly_add_concat(
            interleave(x, (rounds - 1) as nat),
            column(x, rounds - 1, x.len()),
            interleave(y, (rounds - 1) as nat),
            column(y, rounds - 1, y.len()),
        );
    } else {
        assert(poly_add(Seq::<u8>::empty(), Seq::<u8>::empty()) =~= Seq::<u8>::empty());
    }
}

/// The message is additive in the data: the message of the sum of two data
/// codeword sequences is the sum of their messages.
pub proof fn lemma_message_additive(a: Seq<u8>, b: Seq<u8>, index: nat)
    requires
        index < crate::versions::VERSION_COUNT,
        a.len() == data_codewords_table()[index as int],
        b.len() == a.len(),
    ensures
        message(poly_add(a, b), index) == poly_add(message(a, index), message(b, index)),
{
    let blocks = blocks_table(index);
    lemma_blocks_table(index);
    let n = blocks.len();
    let last = blocks.last();
    let s = poly_add(a, b);
    let dba = Seq::new(n, |k: int| data_block(a, blocks, k));
    let dbb = Seq::new(n, |k: int| data_block(b, blocks, k));
    let dbs = Seq::new(n, |k: int| data_block(s, blocks, k));
    let eba = Seq::new(n, |k: int| error_correction_block(a, blocks, k));
    let ebb = Seq::new(n, |k: int| error_correction_block(b, blocks, k));
    let ebs = Seq::new(n, |k: int| error_correction_block(s, blocks, k));
    assert forall|k: int| 0 <= k < n implies (#[trigger] dba[k]).len() == dbb[k].len() && dbs[k] == poly_add(
        dba[k],
        dbb[k],
    ) by {
        lemma_offsets(blocks, k);
        assert(dbs[k] =~= poly_add(dba[k], dbb[k]));
    }
    assert forall|k: int| 0 <= k < n implies (#[trigger] eba[k]).len() == ebb[k].len() && ebs[k] == poly_add(
        eba[k],
        ebb[k],
    ) by {
        assert(block_ok(blocks[k]));
        let ec = (blocks[k].total_codewords - blocks[k].data_codewords) as nat;
        let g = generator_poly(ec + 1);
        lemma_offsets(blocks, k);
        assert(dbs[k] =~= poly_add(dba[k], dbb[k]));
        lemma_remainder_additive(dba[k], dbb[k], g);
        lemma_rem_fold_len(zeros(ec), dba[k], g);
        lemma_rem_fold_len(zeros(ec), dbb[k], g);
        lemma_generator_monic(ec + 1);
    }
    lemma_interleave_additive(dba, dbb, dbs, last.data_codewords as nat);
    lemma_interleave_additive(eba, ebb, ebs, (last.total_codewords - last.data_codewords) as nat);
    lemma_poly_add_concat(
        interleave(dba, last.data_codewords as nat),
        interleave(eba, (last.total_codewords - last.data_codewords) as nat),
        interleave(dbb, last.data_codewords as nat),
        interleave(ebb, (last.total_codewords - last.data_codewords) as nat),
    );
}

/// The first `ns` sequences have length `ds`, the others `ds + 1`.
spec fn two_sizes(seqs: Seq<Seq<u8>>, ds: int, ns: int) -> bool {
    &&& 0 <= ds
    &&& 0 <= ns <= seqs.len()
    &&& forall|b: int| 0 <= b < seqs.len() ==> (#[trigger] seqs[b]).len() == if b < ns { ds } else { ds + 1 }
}

proof fn lemma_column_full(seqs: Seq<Seq<u8>>, i: int, nb: nat)
    requires
        0 <= i,
        nb <= seqs.len(),
        forall|b: int| 0 <= b < nb ==> i < (#[trigger] seqs[b]).len(),
    ensures
        column(seqs, i, nb).len() == nb,
        forall|b: int| 0 <= b < nb ==> #[trigger] column(seqs, i, nb)[b] == seqs[b][i],
    decreases nb,
{
    if nb > 0 {
        lemma_column_full(seqs, i, (nb - 1) as nat);
        assert(i < seqs[nb - 1].len());
    }
}

proof fn lemma_column_tail(seqs: Seq<Seq<u8>>, ds: int, ns: int, nb: nat)
    requires
        two_sizes(seqs, ds, ns),
        nb <= seqs.len(),
    ensures
        column(seqs, ds, nb).len() == if nb <= ns { 0 } else { nb - ns },
        forall|b: int| ns <= b < nb ==> #[trigger] column(seqs, ds, nb)[b - ns] == seqs[b][ds],
    decreases nb,
{
    if nb > 0 {
        lemma_column_tail(seqs, ds, ns, (nb - 1) as nat);
        assert(seqs[nb - 1].len() == if nb - 1 < ns { ds } else { ds + 1 });
    }
}

proof fn lemma_interleave_full(seqs: Seq<Seq<u8>>, ds: int, ns: int, r: nat)
    requires
        two_sizes(seqs, ds, ns),
        r <= ds,
    ensures
        interleave(seqs, r).len() == r * seqs.len(),
        forall|i: int, b: int|
            0 <= i < r && 0 <= b < seqs.len() ==> #[trigger] interleave(seqs, r)[i * seqs.len() + b] == seqs[b][i],
    decreases r,
{
    let n = seqs.len() as int;
    if r > 0 {
        let r1 = (r - 1) as nat;
        lemma_interleave_full(seqs, ds, ns, r1);
        lemma_column_full(seqs, r1 as int, seqs.len());
        assert(r * n == r1 * n + n) by (nonlinear_arith)
            requires
                r1 == r - 1,
        ;
        assert forall|i: int, b: int| 0 <= i < r && 0 <= b < n implies #[trigger] interleave(seqs, r)[i * n + b]
            == seqs[b][i] by {
            if i < r1 {
                assert(i * n + b < r1 * n) by (nonlinear_arith)
                    requires
                        0 <= i < r1,
                        0 <= b < n,
                ;
            } else {
                assert(i * n == r1 * n);
            }
        }
    } else {
        assert(0 * n == 0);
    }
}

proof fn lemma_block_offsets(blocks: Seq<ErrorCorrectionBlock>, ds: int, ns: int, b: int)
    requires
        0 <= b <= blocks.len(),
        0 <= ns,
        forall|k: int| 0 <= k < blocks.len() ==> (#[trigger] blocks[k]).data_codewords == if k < ns { ds } else { ds + 1 },
    ensures
        block_offset(blocks, b) == b * ds + if b > ns { b - ns } else { 0 },
    decreases b,
{
    if b > 0 {
        lemma_block_offsets(blocks, ds, ns, b - 1);
        lemma_offsets(blocks, b - 1);
        assert(b * ds == (b - 1) * ds + ds) by (nonlinear_arith);
    } else {
        assert(blocks.take(0).len() == 0);
    }
}

/// Where each codeword lands in the message, for `n` blocks the first `ns`
/// of which hold `ds` data codewords and the others `ds + 1`, and that all
/// hold `e` error correction codewords: codeword `i` of data block `b` is
/// at `i * n + b` for `i < ds`, and the extra codewords of the longer blocks
/// follow in block order; then error correction codeword `j` of block `b`
/// is at `data.len() + j * n + b`, where the error correction codewords of a
/// block are the remainder of its data by the generator polynomial.
#[verifier::rlimit(60)]
pub proof fn lemma_message_layout(data: Seq<u8>, index: nat, b: int, i: int, j: int)
    requires
        index < crate::versions::VERSION_COUNT,
        data.len() == data_codewords_table()[index as int],
        0 <= b < blocks_table(index).len(),
        0 <= i < blocks_table(index)[b].data_codewords,
        0 <= j < blocks_table(index)[0].total_codewords - blocks_table(index)[0].data_codewords,
    ensures
        ({
            let blocks = blocks_table(index);
            let n = blocks.len() as int;
            let ds = blocks[0].data_codewords as int;
            let e = blocks[0].total_codewords - blocks[0].data_codewords;
            let ns = n * (ds + 1) - data.len();
            let offset = b * ds + if b > ns { b - ns } else { 0 };
            let m = message(data, index);
            &&& m.len() == data.len() + n * e
            &&& m[if i < ds { i * n + b } else { ds * n + b - ns }] == data[offset + i]
            &&& m[data.len() + j * n + b] == poly_remainder(
                data.subrange(offset, offset + blocks[b].data_codewords),
                generator_poly((e + 1) as nat),
            )[j]
        }),
{
    let blocks = blocks_table(index);
    let n = blocks.len() as int;
    let ds = blocks[0].data_codewords as int;
    let e = blocks[0].total_codewords - blocks[0].data_codewords;
    let ns = n * (ds + 1) - data.len();
    let last = blocks.last();
    lemma_blocks_table(index);
    lemma_blocks_sizes(index);
    let db = Seq::new(blocks.len(), |k: int| data_block(data, blocks, k));
    let eb = Seq::new(blocks.len(), |k: int| error_correction_block(data, blocks, k));
    // the blocks' offsets and lengths
    assert forall|k: int| 0 <= k < n implies #[trigger] block_offset(blocks, k) == k * ds + if k > ns { k - ns } else { 0 } by {
        lemma_block_offsets(blocks, ds, ns, k);
    }
    assert forall|k: int| 0 <= k < n implies (#[trigger] db[k]).len() == blocks[k].data_codewords by {
        lemma_offsets(blocks, k);
    }
    assert forall|k: int| 0 <= k < n implies (#[trigger] eb[k]).len() == e by {
        assert(block_ok(blocks[k]));
        lemma_generator_monic((e + 1) as nat);
        lemma_rem_fold_len(zeros(e as nat), data_block(data, blocks, k), generator_poly((e + 1) as nat));
    }
    assert(two_sizes(db, ds, ns));
    assert(two_sizes(eb, e, n));
    lemma_interleave_full(db, ds, ns, ds as nat);
    lemma_interleave_full(eb, e, n, e as nat);
    assert(last == blocks[n - 1]);
    assert(last.total_codewords - last.data_codewords == e);
    let id = interleave(db, last.data_codewords as nat);
    let ie = interleave(eb, e as nat);
    assert(ds * n + (n - ns) == data.len()) by (nonlinear_arith)
        requires
            ns == n * (ds + 1) - data.len(),
    ;
    if ns < n {
        assert(last.data_codewords == ds + 1);
        lemma_column_tail(db, ds, ns, blocks.len());
        assert(id == interleave(db, ds as nat) + column(db, ds, n as nat));
    } else {
        assert(last.data_codewords == ds);
    }
    assert(id.len() == data.len());
    let m = message(data, index);
    assert(m == id + ie);
    assert(ie.len() == n * e) by (nonlinear_arith)
        requires
            ie.len() == e * n,
    ;
    let offset = b * ds + if b > ns { b - ns } else { 0 };
    lemma_offsets(blocks, b);
    assert(block_offset(blocks, b) == offset);
    assert(db[b][i] == data[offset + i]);
    if i < ds {
        assert(i * n + b < ds * n) by (nonlinear_arith)
            requires
                0 <= i < ds,
                0 <= b < n,
        ;
        assert(id[i * n + b] == db[b][i]);
        assert(m[i * n + b] == data[offset + i]);
    } else {
        assert(b >= ns);
        assert(id[ds * n + (b - ns)] == db[b][ds]);
        assert(m[ds * n + b - ns] == data[offset + i]);
    }
    assert(0 <= j * n + b < e * n) by (nonlinear_arith)
        requires
            0 <= j < e,
            0 <= b < n,
    ;
    assert(ie[j * n + b] == eb[b][j]);
    assert(m[data.len() + j * n + b] == eb[b][j]);
    assert(blocks[b].total_codewords - blocks[b].data_codewords == e);
    assert(eb[b] == poly_remainder(
        data.subrange(offset, offset + blocks[b].data_codewords),
        generator_poly((e + 1) as nat),
    ));
}

/// Pushes column `i` of `seqs` onto `result`.
fn push_column(result: &mut Vec<u8>, seqs: &Vec<Vec<u8>>, i: usize)
    ensures
        final(result)@ == old(result)@ + column(seqs@.map_values(|s: Vec<u8>| s@), i as int, seqs.len() as nat),
{
    let ghost views = seqs@.map_values(|s: Vec<u8>| s@);
    let ghost before = result@;
    let mut b: usize = 0;
    while b < seqs.len()
        invariant
            b <= seqs.len(),
            views == seqs@.map_values(|s: Vec<u8>| s@),
            result@ == before + column(views, i as int, b as nat),
        decreases seqs.len() - b,
    {
        if i < seqs[b].len() {
            result.push(seqs[b][i]);
        }
        assert(column(views, i as int, (b + 1) as nat) == column(views, i as int, b as nat) + if i < views[b as int].len() {
            seq![views[b as int][i as int]]
        } else {
            Seq::empty()
        });
        b += 1;
    }
}

/// Pushes the first `rounds` columns of `seqs` onto `result`.
fn push_interleaved(result: &mut Vec<u8>, seqs: &Vec<Vec<u8>>, rounds: usize)
    ensures
        final(result)@ == old(result)@ + interleave(seqs@.map_values(|s: Vec<u8>| s@), rounds as nat),
{
    let ghost views = seqs@.map_values(|s: Vec<u8>| s@);
    let ghost before = result@;
    let mut i: usize = 0;
    while i < rounds
        invariant
            i <= rounds,
            views == seqs@.map_values(|s: Vec<u8>| s@),
            result@ == before + interleave(views, i as nat),
        decreases rounds - i,
    {
        push_column(result, seqs, i);
        i += 1;
    }
}

/// Splits the data codewords into the blocks of the version, appends the
/// error correction codewords of each block, and interleaves the blocks.
pub fn construct_message(data: &[u8], version: Version) -> (m: Vec<u8>)
    requires
        data@.len() == data_codewords_table()[version.index() as int],
    ensures
        m@ == message(data@, version.index()),
        m@.len() == total_codewords(blocks_table(version.index())),
        m@.len() == total_codewords_at(version.index()),
        m@.len() <= 3807,
{
    let blocks = version.error_correction_blocks();
    let ghost index = version.index();
    proof {
        lemma_blocks_table(index);
    }

    let mut data_blocks: Vec<Vec<u8>> = Vec::new();
    let mut error_correction_blocks: Vec<Vec<u8>> = Vec::new();
    let mut data_index: usize = 0;

    let mut bi: usize = 0;
    while bi < blocks.len()
        invariant
            index < crate::versions::VERSION_COUNT,
            blocks@ == blocks_table(index),
            total_data(blocks@) == data@.len(),
            forall|b: int| 0 <= b < blocks@.len() ==> block_ok(#[trigger] blocks@[b]),
            bi <= blocks.len(),
            data_index == block_offset(blocks@, bi as int),
            data_blocks.len() == bi,
            error_correction_blocks.len() == bi,
            forall|b: int| 0 <= b < bi ==> (#[trigger] data_blocks@[b])@ == data_block(data@, blocks@, b),
            forall|b: int| 0 <= b < bi ==> (#[trigger] error_correction_blocks@[b])@ == error_correction_block(data@, blocks@, b),
        decreases blocks.len() - bi,
    {
        let block = blocks[bi];
        proof {
            lemma_offsets(blocks@, bi as int);
            assert(block_ok(blocks@[bi as int]));
            lemma_generator_monic((block.total_codewords - block.data_codewords + 1) as nat);
            assert(block == blocks@[bi as int]);
            assert(data_index + block.data_codewords == block_offset(blocks@, bi + 1));
            assert(block_offset(blocks@, bi + 1) <= data.len());
        }
        let data_block = &data[data_index..(data_index + block.data_codewords)];
        let generator = get_generator_polynomial(block.total_codewords - block.data_codewords);
        let error_correction_block = remainder(data_block, generator.as_slice());

        data_blocks.push(slice_to_vec(data_block));
        error_correction_blocks.push(error_correction_block);

        data_index += block.data_codewords;
        bi += 1;
    }

    let mut result: Vec<u8> = Vec::new();
    let last_block = blocks[blocks.len() - 1];
    push_interleaved(&mut result, &data_blocks, last_block.data_codewords);
    push_interleaved(&mut result, &error_correction_blocks, last_block.total_codewords - last_block.data_codewords);
    proof {
        let db = Seq::new(blocks@.len(), |b: int| data_block(data@, blocks@, b));
        let eb = Seq::new(blocks@.len(), |b: int| error_correction_block(data@, blocks@, b));
        assert(data_blocks@.map_values(|s: Vec<u8>| s@) == db);
        assert(error_correction_blocks@.map_values(|s: Vec<u8>| s@) == eb);
        lemma_message_len(data@, index);
        lemma_message_holds_all_codewords(data@, index);
        lemma_total_codewords_table(index);
    }
    result
}

} // verus!
