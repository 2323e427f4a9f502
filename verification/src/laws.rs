//! The laws the engine obeys, stated and proved over the same spec
//! functions its contracts use: conservation of supply, per-sender nonce
//! order, chain linkage, and leaderboard order.

use vstd::prelude::*;
use crate::accounts::{
    tget_or_zero, tset, wsum, ldb_insert, ldb_sort, lemma_tget_tset_same, lemma_tget_tset_other,
};
use crate::blockchain::{
    CommunityBlockchain, chain_fees, chain_txs, chain_valid, MineSt, mine_step, mine_fold,
    mine_init, applied_after, lemma_applied_after_snoc,
};
use crate::model::{TxV, BlockV, WalletV, block_hash_chars};

verus! {

use vstd::seq_lib::lemma_multiset_commutative;
use vstd::multiset::Multiset;

/// Conservation of supply: however transactions were admitted, mined and
/// applied, the balances and the destroyed fees always account exactly for
/// the supply the chain started with.
pub proof fn lemma_conservation(bc: CommunityBlockchain)
    requires
        bc.wf(),
    ensures
        wsum(bc.wallets_v()) == bc.supply_v() - chain_fees(bc.chain_v()),
{
}

/// Chain linkage: appending a block that links to the tip and whose hash
/// recomputes keeps the whole chain valid.
pub proof fn lemma_chain_linkage(ch: Seq<BlockV>, b: BlockV)
    requires
        chain_valid(ch),
        ch.len() >= 1,
        b.prev_hash == ch.last().hash,
        b.hash == block_hash_chars(b.index, b.timestamp, b.prev_hash, b.state_root, b.transactions),
    ensures
        chain_valid(ch.push(b)),
{
    let ch2 = ch.push(b);
    assert forall|i: int| 1 <= i < ch2.len() implies (#[trigger] ch2[i]).prev_hash == ch2[i
        - 1].hash && ch2[i].hash == block_hash_chars(
        ch2[i].index,
        ch2[i].timestamp,
        ch2[i].prev_hash,
        ch2[i].state_root,
        ch2[i].transactions,
    ) by {
        if i < ch.len() {
            assert(ch2[i] == ch[i]);
            assert(ch2[i - 1] == ch[i - 1]);
        } else {
            assert(ch2[i] == b);
            assert(ch2[i - 1] == ch[ch.len() - 1]);
        }
    }
}

/// The nonces of the transactions a sender signed, in applied order.
pub open spec fn sender_nonces(ts: Seq<TxV>, a: Seq<char>) -> Seq<u64>
    decreases ts.len(),
{
    if ts.len() == 0 {
        Seq::<u64>::empty()
    } else {
        sender_nonces(ts.drop_last(), a) + if ts.last().from == a {
            seq![ts.last().nonce]
        } else {
            Seq::<u64>::empty()
        }
    }
}

/// A run of nonces counting up from just past `base`.
pub open spec fn consec_from(s: Seq<u64>, base: int) -> bool {
    forall|i: int| 0 <= i < s.len() ==> #[trigger] s[i] == base + i + 1
}

/// A gapless chain: every sender's applied nonces run one, two, three and
/// so on.
pub open spec fn gapless(ch: Seq<BlockV>) -> bool {
    forall|a: Seq<char>| consec_from(#[trigger] sender_nonces(chain_txs(ch), a), 0)
}

/// Sender nonces distribute over concatenation.
pub proof fn lemma_sender_nonces_concat(x: Seq<TxV>, y: Seq<TxV>, a: Seq<char>)
    ensures
        sender_nonces(x + y, a) =~= sender_nonces(x, a) + sender_nonces(y, a),
    decreases y.len(),
{
    if y.len() == 0 {
        assert(x + y =~= x);
        assert(sender_nonces(y, a) =~= Seq::<u64>::empty());
    } else {
        lemma_sender_nonces_concat(x, y.drop_last(), a);
        assert((x + y).drop_last() =~= x + y.drop_last());
        assert((x + y).last() == y.last());
    }
}

/// Monotone nonce: appending a block whose per-sender nonces continue the
/// chain's counts keeps the chain gapless.
pub proof fn lemma_monotone_nonce(ch: Seq<BlockV>, b: BlockV)
    requires
        gapless(ch),
        forall|a: Seq<char>|
            consec_from(
                #[trigger] sender_nonces(b.transactions, a),
                sender_nonces(chain_txs(ch), a).len() as int,
            ),
    ensures
        gapless(ch.push(b)),
{
    assert(chain_txs(ch.push(b)) =~= chain_txs(ch) + b.transactions) by {
        assert(ch.push(b).drop_last() =~= ch);
        assert(ch.push(b).last() == b);
    }
    assert forall|a: Seq<char>| consec_from(
        #[trigger] sender_nonces(chain_txs(ch.push(b)), a),
        0,
    ) by {
        lemma_sender_nonces_concat(chain_txs(ch), b.transactions, a);
        let s1 = sender_nonces(chain_txs(ch), a);
        let s2 = sender_nonces(b.transactions, a);
        let s = sender_nonces(chain_txs(ch.push(b)), a);
        assert(s =~= s1 + s2);
        assert forall|i: int| 0 <= i < s.len() implies #[trigger] s[i] == 0 + i + 1 by {
            if i < s1.len() {
                assert(s[i] == s1[i]);
            } else {
                assert(s[i] == s2[i - s1.len()]);
            }
        }
    }
}

/// Monotone nonce, end to end: when the last-applied table counts each
/// sender's applied transactions, appending the block a mining pass
/// assembled keeps the chain gapless.
pub proof fn lemma_mined_block_extends_gapless(
    ws: Seq<WalletV>,
    applied: Seq<(Seq<char>, u64)>,
    pending: Seq<TxV>,
    ch: Seq<BlockV>,
    b: BlockV,
)
    requires
        gapless(ch),
        forall|a: Seq<char>|
            tget_or_zero(applied, a) == (#[trigger] sender_nonces(chain_txs(ch), a)).len(),
        b.transactions == mine_fold(mine_init(ws, applied), pending, ws).acc,
    ensures
        gapless(ch.push(b)),
{
    lemma_mine_nonces(ws, applied, pending);
    let st = mine_fold(mine_init(ws, applied), pending, ws);
    assert forall|a: Seq<char>|
        consec_from(
            #[trigger] sender_nonces(b.transactions, a),
            sender_nonces(chain_txs(ch), a).len() as int,
        ) by {
        assert(sender_nonces(st.acc, a) == sender_nonces(b.transactions, a));
        assert(consec_from(sender_nonces(st.acc, a), tget_or_zero(applied, a)));
        assert(tget_or_zero(applied, a) == sender_nonces(chain_txs(ch), a).len());
    }
    lemma_monotone_nonce(ch, b);
}

/// The nonce accounting a lawful history maintains between rounds: the
/// chain is gapless, and the last-applied table counts each sender's
/// applied transactions.
pub open spec fn nonce_accounting(applied: Seq<(Seq<char>, u64)>, ch: Seq<BlockV>) -> bool {
    &&& gapless(ch)
    &&& forall|a: Seq<char>|
        tget_or_zero(applied, a) == (#[trigger] sender_nonces(chain_txs(ch), a)).len()
}

/// Monotone nonce, base case: a fresh engine — a one-block chain whose
/// genesis carries no transactions, and an empty last-applied table — has
/// lawful nonce accounting.
pub proof fn lemma_nonce_accounting_fresh(applied: Seq<(Seq<char>, u64)>, ch: Seq<BlockV>)
    requires
        ch.len() == 1,
        ch[0].transactions.len() == 0,
        applied.len() == 0,
    ensures
        nonce_accounting(applied, ch),
{
    assert(chain_txs(ch) =~= Seq::<TxV>::empty()) by {
        assert(ch.drop_last() =~= Seq::<BlockV>::empty());
        assert(chain_txs(Seq::<BlockV>::empty()) =~= Seq::<TxV>::empty());
        assert(ch.last() == ch[0]);
        assert(ch[0].transactions =~= Seq::<TxV>::empty());
        assert(chain_txs(ch) == chain_txs(ch.drop_last()) + ch.last().transactions);
    }
    assert forall|a: Seq<char>| tget_or_zero(applied, a) == (#[trigger] sender_nonces(
        chain_txs(ch),
        a,
    )).len() && consec_from(sender_nonces(chain_txs(ch), a), 0) by {
        assert(sender_nonces(chain_txs(ch), a) =~= Seq::<u64>::empty());
    }
}

/// One admission decision keeps the last-seen table equal to the base
/// table advanced by the accepted transactions.
proof fn lemma_mine_step_last(st: MineSt, t: TxV, ws: Seq<WalletV>, base: Seq<(Seq<char>, u64)>)
    requires
        st.last == applied_after(base, st.acc),
    ensures
        mine_step(st, t, ws).last == applied_after(base, mine_step(st, t, ws).acc),
{
    let st2 = mine_step(st, t, ws);
    if st2.acc == st.acc.push(t) && st2.last == tset(st.last, t.from, t.nonce) {
        lemma_applied_after_snoc(base, st.acc, t);
    } else {
        assert(st2.acc == st.acc);
        assert(st2.last == st.last);
    }
}

/// A whole mining pass keeps the last-seen table equal to the base table
/// advanced by the accepted transactions.
proof fn lemma_mine_fold_last(st: MineSt, ts: Seq<TxV>, ws: Seq<WalletV>, base: Seq<
    (Seq<char>, u64),
>)
    requires
        st.last == applied_after(base, st.acc),
    ensures
        mine_fold(st, ts, ws).last == applied_after(base, mine_fold(st, ts, ws).acc),
    decreases ts.len(),
{
    if ts.len() > 0 {
        lemma_mine_step_last(st, ts[0], ws, base);
        lemma_mine_fold_last(mine_step(st, ts[0], ws), ts.drop_first(), ws, base);
    }
}

/// Monotone nonce, inductive step over one mine-and-add round: appending
/// the block a mining pass assembled keeps the chain gapless, and the
/// last-applied table advanced by that block — what `add_block` commits —
/// again counts each sender's applied transactions. Together with
/// `lemma_nonce_accounting_fresh` and the contracts of
/// `create_transaction`, `mine_block` and `add_block` (which leave the
/// chain and the table unchanged, or change them exactly this way), every
/// lawful history keeps nonce accounting, so each sender's applied nonces
/// run one, two, three and so on.
pub proof fn lemma_nonce_accounting_round(
    ws: Seq<WalletV>,
    applied: Seq<(Seq<char>, u64)>,
    pending: Seq<TxV>,
    ch: Seq<BlockV>,
    b: BlockV,
)
    requires
        nonce_accounting(applied, ch),
        b.transactions == mine_fold(mine_init(ws, applied), pending, ws).acc,
    ensures
        nonce_accounting(applied_after(applied, b.transactions), ch.push(b)),
{
    lemma_mined_block_extends_gapless(ws, applied, pending, ch, b);
    lemma_mine_nonces(ws, applied, pending);
    let init = mine_init(ws, applied);
    let st = mine_fold(init, pending, ws);
    assert(init.last == applied_after(applied, init.acc));
    lemma_mine_fold_last(init, pending, ws, applied);
    assert(st.last == applied_after(applied, b.transactions));
    assert(chain_txs(ch.push(b)) =~= chain_txs(ch) + b.transactions) by {
        assert(ch.push(b).drop_last() =~= ch);
        assert(ch.push(b).last() == b);
    }
    assert forall|a: Seq<char>| tget_or_zero(applied_after(applied, b.transactions), a) == (
    #[trigger] sender_nonces(chain_txs(ch.push(b)), a)).len() by {
        lemma_sender_nonces_concat(chain_txs(ch), b.transactions, a);
        assert(sender_nonces(chain_txs(ch.push(b)), a) =~= sender_nonces(chain_txs(ch), a)
            + sender_nonces(b.transactions, a));
        assert(tget_or_zero(st.last, a) == tget_or_zero(applied, a) + sender_nonces(
            st.acc,
            a,
        ).len());
    }
}

/// Appending a transaction extends at most its sender's nonce run.
proof fn lemma_sender_nonces_push(ts: Seq<TxV>, t: TxV, a: Seq<char>)
    ensures
        t.from == a ==> sender_nonces(ts.push(t), a) =~= sender_nonces(ts, a).push(t.nonce),
        t.from != a ==> sender_nonces(ts.push(t), a) =~= sender_nonces(ts, a),
{
    assert(ts.push(t).drop_last() =~= ts);
    assert(ts.push(t).last() == t);
}

/// During mining, every sender's accepted nonces continue its base count,
/// and the last-seen table tracks the run's end.
pub open spec fn nonces_continue(st: MineSt, base: Seq<(Seq<char>, u64)>) -> bool {
    forall|a: Seq<char>|
        {
            let s = #[trigger] sender_nonces(st.acc, a);
            &&& consec_from(s, tget_or_zero(base, a))
            &&& tget_or_zero(st.last, a) == tget_or_zero(base, a) + s.len()
        }
}

/// One admission decision preserves the nonce runs.
proof fn lemma_mine_step_nonces(st: MineSt, t: TxV, ws: Seq<WalletV>, base: Seq<
    (Seq<char>, u64),
>)
    requires
        nonces_continue(st, base),
    ensures
        nonces_continue(mine_step(st, t, ws), base),
{
    let st2 = mine_step(st, t, ws);
    if st2.acc == st.acc.push(t) && st2.last == tset(st.last, t.from, t.nonce) {
        assert forall|a: Seq<char>|
            {
                let s = #[trigger] sender_nonces(st2.acc, a);
                consec_from(s, tget_or_zero(base, a)) && tget_or_zero(st2.last, a)
                    == tget_or_zero(base, a) + s.len()
            } by {
            lemma_sender_nonces_push(st.acc, t, a);
            let s0 = sender_nonces(st.acc, a);
            if t.from == a {
                assert(t.nonce == tget_or_zero(st.last, a) + 1);
                assert(t.nonce == tget_or_zero(base, a) + s0.len() + 1);
                lemma_tget_tset_same(st.last, t.from, t.nonce);
                assert forall|i: int|
                    0 <= i < s0.push(t.nonce).len() implies #[trigger] s0.push(t.nonce)[i]
                    == tget_or_zero(base, a) + i + 1 by {
                    if i < s0.len() {
                        assert(s0.push(t.nonce)[i] == s0[i]);
                    } else {
                        assert(s0.push(t.nonce)[i] == t.nonce);
                    }
                }
            } else {
                lemma_tget_tset_other(st.last, t.from, t.nonce, a);
            }
        }
    } else {
        assert(st2.acc == st.acc);
        assert(st2.last == st.last);
    }
}

/// A whole mining pass preserves the nonce runs.
proof fn lemma_mine_fold_nonces(st: MineSt, ts: Seq<TxV>, ws: Seq<WalletV>, base: Seq<
    (Seq<char>, u64),
>)
    requires
        nonces_continue(st, base),
    ensures
        nonces_continue(mine_fold(st, ts, ws), base),
    decreases ts.len(),
{
    if ts.len() > 0 {
        lemma_mine_step_nonces(st, ts[0], ws, base);
        lemma_mine_fold_nonces(mine_step(st, ts[0], ws), ts.drop_first(), ws, base);
    }
}

/// Monotone nonce, at the mempool: the transactions a mining pass accepts
/// carry, for every sender, consecutive nonces continuing the last applied
/// one.
pub proof fn lemma_mine_nonces(
    ws: Seq<WalletV>,
    applied: Seq<(Seq<char>, u64)>,
    pending: Seq<TxV>,
)
    ensures
        nonces_continue(mine_fold(mine_init(ws, applied), pending, ws), applied),
{
    let init = mine_init(ws, applied);
    assert(nonces_continue(init, applied)) by {
        assert forall|a: Seq<char>|
            {
                let s = #[trigger] sender_nonces(init.acc, a);
                consec_from(s, tget_or_zero(applied, a)) && tget_or_zero(init.last, a)
                    == tget_or_zero(applied, a) + s.len()
            } by {
            assert(sender_nonces(init.acc, a) =~= Seq::<u64>::empty());
        }
    }
    lemma_mine_fold_nonces(init, pending, ws, applied);
}

/// Wallets ranked by balance, highest first.
pub open spec fn ranked(ws: Seq<WalletV>) -> bool {
    forall|i: int, j: int|
        0 <= i < j < ws.len() ==> (#[trigger] ws[i]).balance >= (#[trigger] ws[j]).balance
}

/// Ranked insertion keeps the ranking and only adds the new wallet.
proof fn lemma_ldb_insert_props(w: WalletV, ws: Seq<WalletV>)
    requires
        ranked(ws),
    ensures
        ranked(ldb_insert(w, ws)),
        ldb_insert(w, ws).to_multiset() == ws.to_multiset().insert(w),
    decreases ws.len(),
{
    broadcast use vstd::seq_lib::group_seq_properties;

    let r = ldb_insert(w, ws);
    if ws.len() == 0 {
        assert(r =~= Seq::<WalletV>::empty().push(w));
        Seq::<WalletV>::empty().to_multiset_ensures();
        assert(r.to_multiset() =~= ws.to_multiset().insert(w));
    } else if w.balance > ws[0].balance {
        assert(r =~= seq![w] + ws);
        lemma_multiset_commutative(seq![w], ws);
        assert(seq![w] =~= Seq::<WalletV>::empty().push(w));
        Seq::<WalletV>::empty().to_multiset_ensures();
        assert(seq![w].to_multiset() =~= Multiset::<WalletV>::empty().insert(w));
        assert(r.to_multiset() =~= ws.to_multiset().insert(w));
        assert forall|i: int, j: int|
            0 <= i < j < r.len() implies (#[trigger] r[i]).balance >= (
        #[trigger] r[j]).balance by {
            if i == 0 {
                if j >= 1 {
                    assert(r[j] == ws[j - 1]);
                    if j - 1 > 0 {
                        assert(ws[0].balance >= ws[j - 1].balance);
                    }
                }
            } else {
                assert(r[i] == ws[i - 1]);
                assert(r[j] == ws[j - 1]);
            }
        }
    } else {
        assert(ranked(ws.drop_first())) by {
            assert(forall|i: int|
                0 <= i < ws.drop_first().len() ==> ws.drop_first()[i] == ws[i + 1]);
        }
        lemma_ldb_insert_props(w, ws.drop_first());
        let rr = ldb_insert(w, ws.drop_first());
        assert(r =~= seq![ws[0]] + rr);
        lemma_multiset_commutative(seq![ws[0]], rr);
        lemma_multiset_commutative(seq![ws[0]], ws.drop_first());
        assert(seq![ws[0]] =~= Seq::<WalletV>::empty().push(ws[0]));
        Seq::<WalletV>::empty().to_multiset_ensures();
        assert(ws =~= seq![ws[0]] + ws.drop_first());
        assert(r.to_multiset() =~= ws.to_multiset().insert(w));
        assert forall|i: int, j: int|
            0 <= i < j < r.len() implies (#[trigger] r[i]).balance >= (
        #[trigger] r[j]).balance by {
            if i == 0 {
                assert(r[j] == rr[j - 1]);
                lemma_ldb_insert_mem(w, ws.drop_first(), j - 1);
            } else {
                assert(r[i] == rr[i - 1]);
                assert(r[j] == rr[j - 1]);
            }
        }
    }
}

/// Every wallet of a ranked insertion is the inserted one or one of the
/// originals.
proof fn lemma_ldb_insert_mem(w: WalletV, ws: Seq<WalletV>, i: int)
    requires
        0 <= i < ldb_insert(w, ws).len(),
    ensures
        ldb_insert(w, ws)[i] == w || exists|j: int|
            0 <= j < ws.len() && (#[trigger] ws[j]) == ldb_insert(w, ws)[i],
    decreases ws.len(),
{
    let r = ldb_insert(w, ws);
    if ws.len() == 0 {
    } else if w.balance > ws[0].balance {
        if i > 0 {
            assert(r[i] == ws[i - 1]);
        }
    } else {
        if i == 0 {
            assert(r[0] == ws[0]);
        } else {
            assert(r[i] == ldb_insert(w, ws.drop_first())[i - 1]);
            lemma_ldb_insert_mem(w, ws.drop_first(), i - 1);
            if ldb_insert(w, ws.drop_first())[i - 1] != w {
                let j = choose|j: int|
                    0 <= j < ws.drop_first().len() && (#[trigger] ws.drop_first()[j]) == ldb_insert(
                        w,
                        ws.drop_first(),
                    )[i - 1];
                assert(ws[j + 1] == r[i]);
            }
        }
    }
}

/// Leaderboard order: the ranking is sorted by balance descending and is a
/// permutation of the account store.
pub proof fn lemma_leaderboard(ws: Seq<WalletV>)
    ensures
        ranked(ldb_sort(ws)),
        ldb_sort(ws).to_multiset() == ws.to_multiset(),
    decreases ws.len(),
{
    broadcast use vstd::seq_lib::group_seq_properties;

    if ws.len() == 0 {
    } else {
        lemma_leaderboard(ws.drop_last());
        lemma_ldb_insert_props(ws.last(), ldb_sort(ws.drop_last()));
        ws.drop_last().to_multiset_ensures();
        assert(ws =~= ws.drop_last().push(ws.last()));
    }
}

} // verus!
