//! The chain engine: the authoritative account balances, the mempool, the
//! block log and the durable store, with the admission, assembly,
//! application and verification rules that govern them.

use vstd::prelude::*;
use crate::accounts::{
    Table, tget, tset, tsum, tdistinct, tvalid, tget_or_zero, lemma_tget_tset_other,
    lemma_tsum_tset, lemma_tset_distinct, lemma_tset_is_append, lemma_tget_none, wv, wfind,
    wdistinct, wsum, lemma_wfind_at, lemma_wfind_update, lemma_wfind_push, lemma_wdistinct_push,
    lemma_wsum_update, lemma_wsum_push, wallet_idx, wallet_replace, ldb_insert, ldb_sort,
    insert_ranked, sort_pairs, sorted_entries, epairs,
};
use crate::clock::current_timestamp;
use crate::codec::{
    encode_block, encode_wallet, parse_block, parse_wallet, block_key, wallet_key, txs_views,
    canonical_block, dec_block, canonical_wallet, dec_wallet,
};
use crate::crypto::{
    sha256, ed25519_derive_pk, ed25519_pk_of, ed25519_sign, ed25519_sig_of, ed25519_verify,
    ed25519_verifies, base64_encode, base64_of, base64_decode, unbase64,
};
use crate::errors::ChainError;
use crate::model::{
    Transaction, Block, Wallet, TransactionIndex, Stats, TxV, BlockV, WalletV, tx_wf, block_wf,
    wallet_wf, wallet_rec_wf, seed_of, tx_id_chars, make_tx_id, block_hash_chars,
    compute_block_hash, pair_bytes, pairs_bytes, state_root_chars, clone_txs,
};
use crate::text::{
    AMOUNT_CAP, valid_addr, char_bytes, fee_of, fee_for, validate_address, lemma_addr_chars_ascii,
    lemma_ascii_str_bytes, bytes_to_hex,
};

verus! {

use vstd::string::StringExecFns;
use vstd::string::StringSliceAdditionalSpecFns;
use vstd::bytes::u64_to_le_bytes;

/// The transaction back-references of one address.
pub struct AddrTxs {
    pub address: String,
    pub entries: Vec<TransactionIndex>,
}

/// The chain engine.
pub struct CommunityBlockchain {
    chain: Vec<Block>,
    wallets: Vec<Wallet>,
    nonces: Table,
    applied: Table,
    tx_index: Vec<AddrTxs>,
    pending: Vec<Transaction>,
    store: crate::store::Store,
    supply: Ghost<int>,
}

/// The fees carried by the transactions of one block.
pub open spec fn block_fees(b: BlockV) -> int
    decreases b.transactions.len(),
{
    txs_fees(b.transactions)
}

/// The fees carried by a sequence of transactions.
pub open spec fn txs_fees(ts: Seq<TxV>) -> int
    decreases ts.len(),
{
    if ts.len() == 0 {
        0
    } else {
        txs_fees(ts.drop_last()) + ts.last().fee
    }
}

/// The fees destroyed over a whole chain.
pub open spec fn chain_fees(ch: Seq<BlockV>) -> int
    decreases ch.len(),
{
    if ch.len() == 0 {
        0
    } else {
        chain_fees(ch.drop_last()) + block_fees(ch.last())
    }
}

/// All transactions applied on a chain, in block order.
pub open spec fn chain_txs(ch: Seq<BlockV>) -> Seq<TxV>
    decreases ch.len(),
{
    if ch.len() == 0 {
        Seq::<TxV>::empty()
    } else {
        chain_txs(ch.drop_last()) + ch.last().transactions
    }
}

/// A valid chain: every block links to its predecessor's hash, and every
/// hash recomputes from the block's own content.
pub open spec fn chain_valid(ch: Seq<BlockV>) -> bool {
    forall|i: int|
        1 <= i < ch.len() ==> (#[trigger] ch[i]).prev_hash == ch[i - 1].hash && ch[i].hash
            == block_hash_chars(
            ch[i].index,
            ch[i].timestamp,
            ch[i].prev_hash,
            ch[i].state_root,
            ch[i].transactions,
        )
}

/// The balance pairs of a wallet list, in storage order.
pub open spec fn bal_pairs(ws: Seq<WalletV>) -> Seq<(Seq<char>, u64)> {
    Seq::new(ws.len(), |i: int| (ws[i].address, ws[i].balance))
}

/// Whether a transaction's signature verifies against the sender's stored
/// key.
pub open spec fn sig_ok(t: TxV, ws: Seq<WalletV>) -> bool {
    match wfind(ws, t.from) {
        Some(w) => match unbase64(t.signature) {
            Some(sb) => sb.len() == 64 && ed25519_verifies(
                w.public_key,
                vstd::utf8::encode_utf8(t.tx_id),
                sb,
            ),
            None => false,
        },
        None => false,
    }
}

/// The genesis block a fresh engine is anchored by: index zero, no
/// transactions, and the literal markers in place of real digests.
pub open spec fn fresh_genesis_v(now: u64) -> BlockV {
    BlockV {
        index: 0,
        timestamp: now,
        transactions: Seq::<TxV>::empty(),
        prev_hash: "0"@,
        hash: "genesis"@,
        proposer: "system"@,
        state_root: "genesis_root"@,
    }
}

impl CommunityBlockchain {
    /// The chain, as a sequence of block views.
    pub closed spec fn chain_v(self) -> Seq<BlockV> {
        Seq::new(self.chain@.len(), |i: int| self.chain@[i]@)
    }

    /// The account store, as a sequence of wallet views.
    pub closed spec fn wallets_v(self) -> Seq<WalletV> {
        wv(self.wallets@)
    }

    /// The mempool, in submission order.
    pub closed spec fn pending_v(self) -> Seq<TxV> {
        txs_views(self.pending@)
    }

    /// The issued next-nonce bindings.
    pub closed spec fn nonces_v(self) -> Seq<(Seq<char>, u64)> {
        self.nonces.pairs()
    }

    /// The last applied nonce bindings.
    pub closed spec fn applied_v(self) -> Seq<(Seq<char>, u64)> {
        self.applied.pairs()
    }

    /// The supply the chain started with.
    pub closed spec fn supply_v(self) -> int {
        self.supply@
    }

    /// The committed balance of an address, if a wallet owns it.
    pub open spec fn balance_of(self, a: Seq<char>) -> Option<u64> {
        match wfind(self.wallets_v(), a) {
            Some(w) => Some(w.balance),
            None => None,
        }
    }

    /// The engine's invariant: a genesis-anchored chain of well-formed,
    /// consecutively indexed blocks; distinct, well-keyed wallets; a
    /// well-formed mempool; lawful nonce tables; and conservation of
    /// supply — balances plus destroyed fees equal the initial supply.
    pub open spec fn wf(self) -> bool {
        &&& self.chain_v().len() >= 1
        &&& forall|i: int|
            0 <= i < self.chain_v().len() ==> (#[trigger] self.chain_v()[i]).index == i
        &&& forall|i: int| 0 <= i < self.chain_v().len() ==> block_wf(#[trigger] self.chain_v()[i])
        &&& wdistinct(self.wallets_v())
        &&& forall|i: int|
            0 <= i < self.wallets_v().len() ==> wallet_wf(#[trigger] self.wallets_v()[i])
        &&& forall|i: int| 0 <= i < self.pending_v().len() ==> tx_wf(#[trigger] self.pending_v()[i])
        &&& tdistinct(self.nonces_v())
        &&& tvalid(self.nonces_v())
        &&& tdistinct(self.applied_v())
        &&& tvalid(self.applied_v())
        &&& wsum(self.wallets_v()) + chain_fees(self.chain_v()) == self.supply_v()
    }

    /// Makes the wallet of an address: the balance as given, the public key
    /// derived from the address.
    fn make_wallet(address: String, balance: u64, now: u64) -> (r: Wallet)
        requires
            valid_addr(address@),
        ensures
            r@.address == address@,
            r@.balance == balance,
            r@.tx_count == 0,
            r@.created_at == now,
            r@.last_updated == now,
            wallet_wf(r@),
    {
        let astr = address.as_str();
        proof {
            lemma_addr_chars_ascii(address@);
            lemma_ascii_str_bytes(astr);
        }
        let seed = sha256(astr.as_bytes());
        let pk = ed25519_derive_pk(seed.as_slice());
        Wallet {
            address,
            public_key: pk,
            balance,
            tx_count: 0,
            created_at: now,
            last_updated: now,
        }
    }

    /// The genesis block: index zero, empty, sealed by literal markers.
    fn fresh_genesis(now: u64) -> (r: Block)
        ensures
            r@ == fresh_genesis_v(now),
            r@.index == 0,
            r@.timestamp == now,
            r@.transactions.len() == 0,
            block_wf(r@),
    {
        let g = Block {
            index: 0,
            timestamp: now,
            transactions: Vec::new(),
            prev_hash: "0".to_owned(),
            hash: "genesis".to_owned(),
            proposer: "system".to_owned(),
            state_root: "genesis_root".to_owned(),
        };
        proof {
            reveal_strlit("0");
            reveal_strlit("genesis");
            reveal_strlit("system");
            reveal_strlit("genesis_root");
            assert(g@.transactions =~= Seq::<TxV>::empty());
            assert(block_wf(g@));
            assert(g@ =~= fresh_genesis_v(now));
        }
        g
    }

    /// Opens a fresh engine over `initial` balances, anchored by a genesis
    /// block, at the store under `path`.
    pub fn new(initial: &Vec<(String, u64)>, path: &str) -> (r: Result<CommunityBlockchain, ChainError>)
        requires
            forall|i: int| 0 <= i < initial@.len() ==> valid_addr((#[trigger] initial@[i]).0@),
            forall|i: int, j: int|
                0 <= i < j < initial@.len() ==> (#[trigger] initial@[i]).0@ != (
                #[trigger] initial@[j]).0@,
            crate::accounts::tsum(
                Seq::new(initial@.len(), |i: int| (initial@[i].0@, initial@[i].1)),
            ) <= u64::MAX,
        ensures
            match r {
                Ok(bc) => {
                    &&& bc.wf()
                    &&& bc.chain_v().len() == 1
                    &&& bc.chain_v()[0].index == 0
                    &&& bc.chain_v()[0].transactions.len() == 0
                    &&& bc.chain_v()[0].prev_hash == "0"@
                    &&& bc.chain_v()[0].hash == "genesis"@
                    &&& bc.chain_v()[0].proposer == "system"@
                    &&& bc.pending_v().len() == 0
                    &&& bc.nonces_v().len() == 0
                    &&& bc.applied_v().len() == 0
                    &&& bc.wallets_v().len() == initial@.len()
                    &&& forall|i: int|
                        0 <= i < initial@.len() ==> bc.balance_of((#[trigger] initial@[i]).0@)
                            == Some(initial@[i].1)
                    &&& forall|i: int|
                        0 <= i < initial@.len() ==> match wfind(
                            bc.wallets_v(),
                            (#[trigger] initial@[i]).0@,
                        ) {
                            Some(w) => w.address == initial@[i].0@ && w.balance == initial@[i].1
                                && w.tx_count == 0 && w.created_at == w.last_updated,
                            None => false,
                        }
                    &&& bc.supply_v() == crate::accounts::tsum(
                        Seq::new(initial@.len(), |i: int| (initial@[i].0@, initial@[i].1)),
                    )
                },
                Err(e) => e == ChainError::PersistenceError,
            },
    {
        let ghost ips = Seq::new(initial@.len(), |i: int| (initial@[i].0@, initial@[i].1));
        let store = match crate::store::Store::open(path) {
            Ok(st) => st,
            Err(e) => {
                return Err(ChainError::PersistenceError);
            },
        };
        let now = current_timestamp();
        let mut wallets: Vec<Wallet> = Vec::new();
        let mut i: usize = 0;
        proof {
            lemma_tsum_prefix(ips, 0);
        }
        while i < initial.len()
            invariant
                ips == Seq::new(initial@.len(), |k: int| (initial@[k].0@, initial@[k].1)),
                forall|k: int| 0 <= k < initial@.len() ==> valid_addr((#[trigger] initial@[k]).0@),
                forall|k: int, j: int|
                    0 <= k < j < initial@.len() ==> (#[trigger] initial@[k]).0@ != (
                    #[trigger] initial@[j]).0@,
                0 <= i <= initial@.len(),
                wv(wallets@).len() == i,
                forall|k: int|
                    0 <= k < i ==> (#[trigger] wv(wallets@)[k]).address == initial@[k].0@ && wv(
                        wallets@,
                    )[k].balance == initial@[k].1 && wv(wallets@)[k].tx_count == 0 && wv(
                        wallets@,
                    )[k].created_at == wv(wallets@)[k].last_updated && wallet_wf(wv(wallets@)[k]),
                wsum(wv(wallets@)) == tsum(ips.subrange(0, i as int)),
            decreases initial@.len() - i,
        {
            let addr = initial[i].0.clone();
            let bal = initial[i].1;
            let w = Self::make_wallet(addr, bal, now);
            let ghost prev = wv(wallets@);
            proof {
                lemma_wsum_push(prev, w@);
            }
            wallets.push(w);
            proof {
                assert(wv(wallets@) =~= prev.push(w@));
                lemma_tsum_prefix(ips, i + 1);
                assert(ips.subrange(0, i + 1).drop_last() =~= ips.subrange(0, i as int));
                assert(ips.subrange(0, i + 1).last() == ips[i as int]);
                assert(tsum_back(ips.subrange(0, i + 1)) == tsum_back(ips.subrange(0, i as int))
                    + ips[i as int].1);
                lemma_tsum_prefix(ips, i as int);
            }
            i = i + 1;
        }
        proof {
            assert(ips.subrange(0, ips.len() as int) =~= ips);
        }
        let genesis = Self::fresh_genesis(now);
        let gbytes = encode_block(&genesis);
        let gkey = block_key(0);
        let mut store = store;
        match store.put(gkey.as_slice(), gbytes.as_slice()) {
            Ok(_) => {},
            Err(_) => {
                return Err(ChainError::PersistenceError);
            },
        }
        match store.flush() {
            Ok(_) => {},
            Err(_) => {
                return Err(ChainError::PersistenceError);
            },
        }
        let mut chain: Vec<Block> = Vec::new();
        chain.push(genesis);
        let bc = CommunityBlockchain {
            chain,
            wallets,
            nonces: Table::new(),
            applied: Table::new(),
            tx_index: Vec::new(),
            pending: Vec::new(),
            store,
            supply: Ghost(tsum(ips)),
        };
        proof {
            assert(bc.chain_v().len() == 1);
            assert(bc.chain_v()[0].transactions.len() == 0);
            assert(txs_fees(Seq::<TxV>::empty()) == 0);
            assert(bc.chain_v()[0].transactions =~= Seq::<TxV>::empty());
            assert(block_fees(bc.chain_v()[0]) == 0);
            assert(bc.chain_v().drop_last() =~= Seq::<BlockV>::empty());
            assert(chain_fees(Seq::<BlockV>::empty()) == 0);
            assert(bc.chain_v().last() == bc.chain_v()[0]);
            assert(chain_fees(bc.chain_v()) == 0);
            assert(wdistinct(bc.wallets_v()));
            assert forall|k: int| 0 <= k < initial@.len() implies bc.balance_of(
                (#[trigger] initial@[k]).0@,
            ) == Some(initial@[k].1) by {
                let a = initial@[k].0@;
                lemma_wfind_at(bc.wallets_v(), a, first_addr_idx(bc.wallets_v(), a, k));
            }
            assert forall|k: int| 0 <= k < initial@.len() implies match wfind(
                bc.wallets_v(),
                (#[trigger] initial@[k]).0@,
            ) {
                Some(w) => w.address == initial@[k].0@ && w.balance == initial@[k].1
                    && w.tx_count == 0 && w.created_at == w.last_updated,
                None => false,
            } by {
                let a = initial@[k].0@;
                lemma_wfind_at(bc.wallets_v(), a, first_addr_idx(bc.wallets_v(), a, k));
            }
        }
        Ok(bc)
    }
}

/// The first index among wallets holding address `a`, below a known match.
spec fn first_addr_idx(ws: Seq<WalletV>, a: Seq<char>, i: int) -> int
    decreases i,
{
    if exists|j: int| 0 <= j < i && (#[trigger] ws[j]).address == a {
        first_addr_idx(ws, a, choose|j: int| 0 <= j < i && (#[trigger] ws[j]).address == a)
    } else {
        i
    }
}

/// The sum of a prefix of pairs grows by each element.
proof fn lemma_tsum_prefix(ps: Seq<(Seq<char>, u64)>, i: int)
    requires
        0 <= i <= ps.len(),
    ensures
        i == 0 ==> tsum(ps.subrange(0, i)) == 0,
        i > 0 ==> tsum(ps.subrange(0, i)) == tsum_back(ps.subrange(0, i)),
{
    if i == 0 {
        assert(ps.subrange(0, 0) =~= Seq::<(Seq<char>, u64)>::empty());
    } else {
        lemma_tsum_back(ps.subrange(0, i));
    }
}

/// The sum of pairs, accumulated from the back.
pub open spec fn tsum_back(ps: Seq<(Seq<char>, u64)>) -> int
    decreases ps.len(),
{
    if ps.len() == 0 {
        0
    } else {
        tsum_back(ps.drop_last()) + ps.last().1
    }
}

/// Front and back accumulation of pair sums agree.
proof fn lemma_tsum_back(ps: Seq<(Seq<char>, u64)>)
    ensures
        tsum(ps) == tsum_back(ps),
    decreases ps.len(),
{
    if ps.len() == 0 {
    } else if ps.len() == 1 {
        assert(ps.drop_last() =~= Seq::<(Seq<char>, u64)>::empty());
        assert(ps.drop_first() =~= Seq::<(Seq<char>, u64)>::empty());
        assert(tsum(Seq::<(Seq<char>, u64)>::empty()) == 0);
        assert(tsum_back(Seq::<(Seq<char>, u64)>::empty()) == 0);
        assert(tsum(ps) == ps[0].1 + tsum(ps.drop_first()));
        assert(tsum_back(ps) == tsum_back(ps.drop_last()) + ps.last().1);
        assert(ps[0] == ps.last());
    } else {
        lemma_tsum_back(ps.drop_first());
        lemma_tsum_back(ps.drop_last());
        lemma_tsum_back(ps.drop_first().drop_last());
        assert(ps.drop_first().drop_last() =~= ps.drop_last().drop_first());
        assert(tsum(ps) == ps[0].1 + tsum(ps.drop_first()));
        assert(tsum(ps.drop_last()) == ps[0].1 + tsum(ps.drop_last().drop_first()));
        assert(ps.drop_first().last() == ps.last());
        assert(tsum_back(ps.drop_first()) == tsum_back(ps.drop_first().drop_last())
            + ps.drop_first().last().1);
        assert(tsum_back(ps) == tsum_back(ps.drop_last()) + ps.last().1);
    }
}

/// Concatenation keeps text safe.
pub proof fn lemma_safe_concat(a: Seq<char>, b: Seq<char>)
    requires
        crate::model::safe_text(a),
        crate::model::safe_text(b),
    ensures
        crate::model::safe_text(a + b),
{
    assert forall|i: int| 0 <= i < (a + b).len() implies crate::text::addr_char(
        #[trigger] (a + b)[i],
    ) by {
        if i < a.len() {
            assert((a + b)[i] == a[i]);
        } else {
            assert((a + b)[i] == b[i - a.len()]);
        }
    }
}

/// Decimal digits are address characters.
pub proof fn lemma_dec_digits_safe(n: int)
    requires
        n >= 0,
    ensures
        crate::model::safe_text(crate::text::dec_digits(n)),
    decreases n,
{
    if n < 10 {
    } else {
        lemma_dec_digits_safe(n / 10);
        let s = crate::text::dec_digits(n);
        let pre = crate::text::dec_digits(n / 10);
        assert forall|i: int| 0 <= i < s.len() implies crate::text::addr_char(
            #[trigger] s[i],
        ) by {
            if i < pre.len() {
                assert(s[i] == pre[i]);
            } else {
                assert(s[i] == crate::text::digit_char(n % 10));
            }
        }
    }
}

/// A transaction identifier is safe, printable text.
pub proof fn lemma_tx_id_safe(from: Seq<char>, to: Seq<char>, nonce: u64, ts: u64)
    requires
        valid_addr(from),
        valid_addr(to),
    ensures
        crate::model::safe_text(tx_id_chars(from, to, nonce, ts)),
        tx_id_chars(from, to, nonce, ts).len() >= 1,
{
    let h = seq!['-'];
    assert(crate::model::safe_text(h)) by {
        assert(h[0] == '-');
    }
    lemma_dec_digits_safe(nonce as int);
    lemma_dec_digits_safe(ts as int);
    lemma_safe_concat(from, h);
    lemma_safe_concat(from + h, to);
    lemma_safe_concat(from + h + to, h);
    lemma_safe_concat(from + h + to + h, crate::text::dec_digits(nonce as int));
    lemma_safe_concat(from + h + to + h + crate::text::dec_digits(nonce as int), h);
    lemma_safe_concat(
        from + h + to + h + crate::text::dec_digits(nonce as int) + h,
        crate::text::dec_digits(ts as int),
    );
}

impl CommunityBlockchain {
    /// The next nonce already issued to an address; zero when none was.
    pub fn issued_nonce(&self, address: &str) -> (r: u64)
        ensures
            r == tget_or_zero(self.nonces_v(), address@),
    {
        let a = address.to_owned();
        match self.nonces.get(&a) {
            Some(n) => n,
            None => 0,
        }
    }

    /// The committed balance of an address.
    pub fn get_balance(&self, address: &str) -> (r: Result<u64, ChainError>)
        ensures
            match r {
                Ok(b) => self.balance_of(address@) == Some(b),
                Err(e) => self.balance_of(address@) is None && e == ChainError::UnknownWallet,
            },
    {
        let a = address.to_owned();
        match wallet_idx(&self.wallets, &a) {
            Some(i) => Ok(self.wallets[i].balance),
            None => Err(ChainError::UnknownWallet),
        }
    }

    /// A snapshot of the wallet owning an address.
    pub fn get_wallet(&self, address: &str) -> (r: Result<Wallet, ChainError>)
        ensures
            match r {
                Ok(w) => wfind(self.wallets_v(), address@) == Some(w@),
                Err(e) => wfind(self.wallets_v(), address@) is None && e
                    == ChainError::UnknownWallet,
            },
    {
        let a = address.to_owned();
        match wallet_idx(&self.wallets, &a) {
            Some(i) => Ok(self.wallets[i].clone()),
            None => Err(ChainError::UnknownWallet),
        }
    }

    /// The mempool, in submission order.
    pub fn get_pending(&self) -> (r: Vec<Transaction>)
        ensures
            txs_views(r@) =~= self.pending_v(),
    {
        clone_txs(&self.pending)
    }

    /// The chain, in index order.
    pub fn get_chain(&self) -> (r: Vec<Block>)
        ensures
            Seq::new(r@.len(), |i: int| r@[i]@) =~= self.chain_v(),
    {
        let mut out: Vec<Block> = Vec::new();
        let mut i: usize = 0;
        while i < self.chain.len()
            invariant
                0 <= i <= self.chain@.len(),
                out@.len() == i,
                forall|k: int| 0 <= k < i ==> #[trigger] out@[k]@ == self.chain@[k]@,
            decreases self.chain@.len() - i,
        {
            out.push(self.chain[i].clone());
            i = i + 1;
        }
        out
    }

    /// Wallet snapshots ranked by balance, highest first; among equal
    /// balances the storage order is kept, so the ranking is deterministic.
    pub fn get_leaderboard(&self) -> (r: Vec<Wallet>)
        ensures
            wv(r@) =~= ldb_sort(self.wallets_v()),
    {
        let mut out: Vec<Wallet> = Vec::new();
        let mut i: usize = 0;
        proof {
            assert(self.wallets_v().subrange(0, 0) =~= Seq::<WalletV>::empty());
            assert(wv(out@) =~= Seq::<WalletV>::empty());
        }
        while i < self.wallets.len()
            invariant
                0 <= i <= self.wallets@.len(),
                self.wallets_v().len() == self.wallets@.len(),
                wv(out@) =~= ldb_sort(self.wallets_v().subrange(0, i as int)),
            decreases self.wallets@.len() - i,
        {
            let ghost prev = wv(out@);
            insert_ranked(&mut out, self.wallets[i].clone());
            proof {
                let pre = self.wallets_v().subrange(0, i as int);
                let cur = self.wallets_v().subrange(0, i + 1);
                assert(cur.drop_last() =~= pre);
                assert(cur.last() == self.wallets_v()[i as int]);
                assert(wv(out@) =~= ldb_insert(self.wallets_v()[i as int], prev));
            }
            i = i + 1;
        }
        proof {
            assert(self.wallets_v().subrange(0, self.wallets_v().len() as int)
                =~= self.wallets_v());
        }
        out
    }

    /// Whether a transaction's signature verifies against the sender's
    /// stored public key. A signature formed with the signing key derived
    /// from the sender's address verifies.
    pub fn verify_signature(&self, tx: &Transaction) -> (r: bool)
        requires
            self.wf(),
        ensures
            r == sig_ok(tx@, self.wallets_v()),
            forall|sb: Seq<u8>|
                sb.len() == 64 && tx@.signature == #[trigger] base64_of(sb) && wfind(
                    self.wallets_v(),
                    tx@.from,
                ) is Some && sb == ed25519_sig_of(
                    seed_of(tx@.from),
                    vstd::utf8::encode_utf8(tx@.tx_id),
                ) ==> r,
    {
        let a = tx.from.clone();
        let widx = match wallet_idx(&self.wallets, &a) {
            Some(i) => i,
            None => {
                return false;
            },
        };
        let d = base64_decode(tx.signature.as_str());
        let sb = match d {
            Some(v) => v,
            None => {
                return false;
            },
        };
        if sb.len() != 64 {
            return false;
        }
        proof {
            assert(wallet_wf(self.wallets_v()[widx as int]));
        }
        let idstr = tx.tx_id.as_str();
        let msg = idstr.as_bytes();
        let ok = ed25519_verify(self.wallets[widx].public_key.as_slice(), msg, sb.as_slice());
        proof {
            assert(msg@ == idstr.spec_bytes());
            assert(idstr.spec_bytes() == vstd::utf8::encode_utf8(tx@.tx_id));
            let w = wfind(self.wallets_v(), tx@.from).unwrap();
            assert(w == self.wallets_v()[widx as int]);
            assert(w.public_key == self.wallets@[widx as int].public_key@);
            assert(unbase64(tx@.signature) == Some(sb@));
            assert(sb@.len() == 64);
            assert(ok == ed25519_verifies(w.public_key, vstd::utf8::encode_utf8(tx@.tx_id), sb@));
        }
        ok
    }
}

impl CommunityBlockchain {
    /// Admits a transfer into the mempool: validates the amount, the
    /// sender and the funds; creates the recipient's wallet if absent;
    /// issues the sender's next nonce; signs the identifier with the
    /// sender's derived key; and appends the signed transaction.
    #[verifier::rlimit(100)]
    pub fn create_transaction(&mut self, from: String, to: String, amount: u64) -> (r: Result<
        String,
        ChainError,
    >)
        requires
            old(self).wf(),
            valid_addr(to@),
            tget_or_zero(old(self).nonces_v(), from@) < u64::MAX,
        ensures
            final(self).wf(),
            r == Err::<String, ChainError>(ChainError::InvalidAmount) <==> !(0 < amount
                <= AMOUNT_CAP),
            r == Err::<String, ChainError>(ChainError::UnknownSender) <==> (0 < amount
                <= AMOUNT_CAP) && wfind(old(self).wallets_v(), from@) is None,
            r == Err::<String, ChainError>(ChainError::InsufficientFunds) <==> (0 < amount
                <= AMOUNT_CAP) && match wfind(old(self).wallets_v(), from@) {
                Some(w) => w.balance < amount + fee_of(amount),
                None => false,
            },
            r is Err ==> *final(self) == *old(self),
            r is Err ==> r == Err::<String, ChainError>(ChainError::InvalidAmount) || r
                == Err::<String, ChainError>(ChainError::UnknownSender) || r == Err::<
                String,
                ChainError,
            >(ChainError::InsufficientFunds),
            r is Ok ==> {
                let t = final(self).pending_v().last();
                &&& final(self).pending_v() =~= old(self).pending_v().push(t)
                &&& t.from == from@
                &&& t.to == to@
                &&& t.amount == amount
                &&& t.fee == fee_of(amount)
                &&& t.nonce == tget_or_zero(old(self).nonces_v(), from@) + 1
                &&& t.tx_id == tx_id_chars(from@, to@, t.nonce, t.timestamp)
                &&& t.signature == base64_of(
                    ed25519_sig_of(seed_of(from@), vstd::utf8::encode_utf8(t.tx_id)),
                )
                &&& tx_wf(t)
                &&& r.unwrap()@ == t.tx_id
                &&& final(self).nonces_v() =~= tset(old(self).nonces_v(), from@, t.nonce)
                &&& final(self).chain_v() == old(self).chain_v()
                &&& final(self).applied_v() == old(self).applied_v()
                &&& final(self).supply_v() == old(self).supply_v()
                &&& forall|a: Seq<char>|
                    a != to@ ==> #[trigger] final(self).balance_of(a) == old(self).balance_of(a)
                &&& final(self).balance_of(to@) == match old(self).balance_of(to@) {
                    Some(b) => Some(b),
                    None => Some(0u64),
                }
            },
    {
        if !(0 < amount && amount <= AMOUNT_CAP) {
            return Err(ChainError::InvalidAmount);
        }
        let widx = match wallet_idx(&self.wallets, &from) {
            Some(i) => i,
            None => {
                return Err(ChainError::UnknownSender);
            },
        };
        let fee = fee_for(amount);
        if self.wallets[widx].balance < amount + fee {
            return Err(ChainError::InsufficientFunds);
        }
        let now = current_timestamp();
        let ghost ws0 = self.wallets_v();
        match wallet_idx(&self.wallets, &to) {
            Some(_) => {},
            None => {
                let w0 = Self::make_wallet(to.clone(), 0, now);
                proof {
                    lemma_wsum_push(self.wallets_v(), w0@);
                    lemma_wdistinct_push(self.wallets_v(), w0@);
                }
                let ghost prev = self.wallets_v();
                self.wallets.push(w0);
                proof {
                    assert(self.wallets_v() =~= prev.push(w0@));
                    assert forall|a: Seq<char>| true implies #[trigger] wfind(
                        self.wallets_v(),
                        a,
                    ) == if a == to@ {
                        Some(self.wallets_v().last())
                    } else {
                        wfind(prev, a)
                    } by {
                        lemma_wfind_push(prev, self.wallets_v().last(), a);
                    }
                }
            },
        }
        let n0 = self.issued_nonce(from.as_str());
        let nonce = n0 + 1;
        proof {
            lemma_wfind_mem_addr(ws0, from@);
            lemma_tset_distinct(self.nonces_v(), from@, nonce);
        }
        self.nonces.set(&from, nonce);
        let tx_id = make_tx_id(from.as_str(), to.as_str(), nonce, now);
        let fstr = from.as_str();
        let idstr = tx_id.as_str();
        proof {
            lemma_addr_chars_ascii(from@);
            lemma_ascii_str_bytes(fstr);
            lemma_tx_id_safe(from@, to@, nonce, now);
            lemma_addr_chars_ascii(tx_id@);
            lemma_ascii_str_bytes(idstr);
        }
        let seed = sha256(fstr.as_bytes());
        let sig = ed25519_sign(seed.as_slice(), idstr.as_bytes());
        let signature = base64_encode(sig.as_slice());
        let tx = Transaction {
            from,
            to,
            amount,
            fee,
            timestamp: now,
            tx_id: tx_id.clone(),
            signature,
            nonce,
        };
        proof {
            assert(vstd::utf8::encode_utf8(tx@.tx_id) =~= char_bytes(tx_id@)) by {
                vstd::utf8::is_ascii_chars_encode_utf8(tx_id@);
            }
            assert(tx_wf(tx@));
        }
        let ghost pend0 = self.pending_v();
        self.pending.push(tx);
        proof {
            assert(self.pending_v() =~= pend0.push(self.pending_v().last()));
            assert(self.chain_v() == old(self).chain_v());
            assert(wdistinct(self.wallets_v()));
            assert(forall|i: int|
                0 <= i < self.wallets_v().len() ==> wallet_wf(#[trigger] self.wallets_v()[i]));
            assert(self.pending_v().last() == tx@);
            assert forall|i: int| 0 <= i < self.pending_v().len() implies tx_wf(
                #[trigger] self.pending_v()[i],
            ) by {
                if i < pend0.len() {
                    assert(self.pending_v()[i] == pend0[i]);
                    assert(pend0[i] == old(self).pending_v()[i]);
                } else {
                    assert(self.pending_v()[i] == tx@);
                }
            }
            assert(tdistinct(self.nonces_v()));
            assert(tvalid(self.nonces_v()));
            assert(wsum(self.wallets_v()) + chain_fees(self.chain_v()) == self.supply_v());
        }
        Ok(tx_id)
    }
}

/// A wallet found by address carries a lawful address.
pub proof fn lemma_wfind_mem_addr(ws: Seq<WalletV>, a: Seq<char>)
    requires
        wfind(ws, a) is Some,
        forall|i: int| 0 <= i < ws.len() ==> wallet_wf(#[trigger] ws[i]),
    ensures
        valid_addr(a),
{
    crate::accounts::lemma_wfind_mem(ws, a);
}

/// The state of one mining pass: the shadow balances, the last nonce seen
/// per sender, the accepted transactions and the ones returned to the
/// mempool.
pub struct MineSt {
    pub shadow: Seq<(Seq<char>, u64)>,
    pub last: Seq<(Seq<char>, u64)>,
    pub acc: Seq<TxV>,
    pub kept: Seq<TxV>,
}

/// One admission decision during mining: a transaction with a bad
/// signature is discarded; one out of nonce order, short of funds, or
/// overflowing the recipient is returned to the mempool; an accepted one
/// moves value on the shadow balances.
pub open spec fn mine_step(st: MineSt, t: TxV, ws: Seq<WalletV>) -> MineSt {
    if !sig_ok(t, ws) {
        st
    } else if t.nonce != tget_or_zero(st.last, t.from) + 1 {
        MineSt { shadow: st.shadow, last: st.last, acc: st.acc, kept: st.kept.push(t) }
    } else {
        let bal = tget_or_zero(st.shadow, t.from);
        if bal < t.amount + t.fee {
            MineSt { shadow: st.shadow, last: st.last, acc: st.acc, kept: st.kept.push(t) }
        } else {
            let nf = (bal - t.amount - t.fee) as u64;
            let rb = if t.to == t.from {
                nf as int
            } else {
                tget_or_zero(st.shadow, t.to)
            };
            if rb + t.amount > u64::MAX {
                MineSt { shadow: st.shadow, last: st.last, acc: st.acc, kept: st.kept.push(t) }
            } else {
                MineSt {
                    shadow: tset(tset(st.shadow, t.from, nf), t.to, (rb + t.amount) as u64),
                    last: tset(st.last, t.from, t.nonce),
                    acc: st.acc.push(t),
                    kept: st.kept,
                }
            }
        }
    }
}

/// The mining pass over a mempool, first submission first.
pub open spec fn mine_fold(st: MineSt, ts: Seq<TxV>, ws: Seq<WalletV>) -> MineSt
    decreases ts.len(),
{
    if ts.len() == 0 {
        st
    } else {
        mine_fold(mine_step(st, ts[0], ws), ts.drop_first(), ws)
    }
}

/// The state a mining pass starts from: the committed balances and the
/// last applied nonces.
pub open spec fn mine_init(ws: Seq<WalletV>, applied: Seq<(Seq<char>, u64)>) -> MineSt {
    MineSt {
        shadow: bal_pairs(ws),
        last: applied,
        acc: Seq::<TxV>::empty(),
        kept: Seq::<TxV>::empty(),
    }
}

/// A left fold steps once more on an appended element.
proof fn lemma_mine_fold_snoc(st: MineSt, ts: Seq<TxV>, t: TxV, ws: Seq<WalletV>)
    ensures
        mine_fold(st, ts.push(t), ws) == mine_step(mine_fold(st, ts, ws), t, ws),
    decreases ts.len(),
{
    if ts.len() == 0 {
        assert(ts.push(t)[0] == t);
        assert(ts.push(t).drop_first() =~= Seq::<TxV>::empty());
        assert(mine_fold(mine_step(st, t, ws), Seq::<TxV>::empty(), ws) == mine_step(st, t, ws));
        assert(mine_fold(st, ts.push(t), ws) == mine_fold(
            mine_step(st, ts.push(t)[0], ws),
            ts.push(t).drop_first(),
            ws,
        ));
        assert(mine_fold(st, ts, ws) == st);
    } else {
        assert(ts.push(t)[0] == ts[0]);
        assert(ts.push(t).drop_first() =~= ts.drop_first().push(t));
        lemma_mine_fold_snoc(mine_step(st, ts[0], ws), ts.drop_first(), t, ws);
        assert(mine_fold(st, ts.push(t), ws) == mine_fold(
            mine_step(st, ts[0], ws),
            ts.drop_first().push(t),
            ws,
        ));
        assert(mine_fold(st, ts, ws) == mine_fold(mine_step(st, ts[0], ws), ts.drop_first(), ws));
    }
}

impl CommunityBlockchain {
    /// Computes the state root over a balance table: the digest of the
    /// pairs sorted by address.
    fn compute_state_root(t: &Table) -> (r: String)
        requires
            tvalid(t.pairs()),
        ensures
            r@ == state_root_chars(sort_pairs(t.pairs())),
            r@.len() == 64,
            crate::model::safe_text(r@),
    {
        let entries = t.to_entries();
        proof {
            assert(epairs(entries@) =~= t.pairs());
        }
        let sorted = sorted_entries(&entries);
        let ghost sp = sort_pairs(t.pairs());
        proof {
            assert(epairs(sorted@) =~= sp);
            crate::accounts::lemma_sort_tvalid(t.pairs());
        }
        let mut bytes: Vec<u8> = Vec::new();
        let mut i: usize = 0;
        proof {
            assert(sp.subrange(0, 0) =~= Seq::<(Seq<char>, u64)>::empty());
            assert(bytes@ =~= pairs_bytes(sp.subrange(0, 0)));
        }
        while i < sorted.len()
            invariant
                0 <= i <= sorted@.len(),
                sorted@.len() == sp.len(),
                forall|k: int|
                    0 <= k < sp.len() ==> (#[trigger] sorted@[k]).addr@ == sp[k].0
                        && sorted@[k].val == sp[k].1,
                forall|k: int| 0 <= k < sp.len() ==> valid_addr((#[trigger] sp[k]).0),
                bytes@ == pairs_bytes(sp.subrange(0, i as int)),
            decreases sp.len() - i,
        {
            let astr = sorted[i].addr.as_str();
            proof {
                assert(valid_addr(sp[i as int].0));
                lemma_addr_chars_ascii(astr@);
                lemma_ascii_str_bytes(astr);
            }
            let ab = astr.as_bytes();
            let mut av = vstd::slice::slice_to_vec(ab);
            bytes.append(&mut av);
            let mut bv = u64_to_le_bytes(sorted[i].val);
            bytes.append(&mut bv);
            proof {
                let pre = sp.subrange(0, i as int);
                let cur = sp.subrange(0, i + 1);
                assert(cur.drop_last() =~= pre);
                assert(cur.last() == sp[i as int]);
                assert(bytes@ =~= pairs_bytes(pre) + pair_bytes(sp[i as int].0, sp[i as int].1));
                assert(bytes@ =~= pairs_bytes(cur));
            }
            i = i + 1;
        }
        proof {
            assert(sp.subrange(0, sp.len() as int) =~= sp);
        }
        let digest = sha256(bytes.as_slice());
        let out = bytes_to_hex(digest.as_slice());
        proof {
            crate::text::lemma_hex_chars(digest@);
        }
        out
    }

    /// Assembles a block: drains the mempool in order, re-validating each
    /// transaction against shadow balances and per-sender nonce order;
    /// discards transactions whose signature fails; returns the other
    /// rejected ones to the mempool; links the block to the tip and seals
    /// it with the state root and hash. Mining does not touch the account
    /// store.
    #[verifier::rlimit(100)]
    pub fn mine_block(&mut self, proposer: String) -> (r: Result<Block, ChainError>)
        requires
            old(self).wf(),
            valid_addr(proposer@),
        ensures
            final(self).wf(),
            ({
                let st = mine_fold(
                    mine_init(old(self).wallets_v(), old(self).applied_v()),
                    old(self).pending_v(),
                    old(self).wallets_v(),
                );
                match r {
                    Ok(b) => {
                        &&& st.acc.len() > 0
                        &&& b@.transactions =~= st.acc
                        &&& b@.index == old(self).chain_v().len()
                        &&& b@.prev_hash == old(self).chain_v().last().hash
                        &&& b@.proposer == proposer@
                        &&& b@.state_root == state_root_chars(sort_pairs(st.shadow))
                        &&& b@.hash == block_hash_chars(
                            b@.index,
                            b@.timestamp,
                            b@.prev_hash,
                            b@.state_root,
                            b@.transactions,
                        )
                        &&& block_wf(b@)
                        &&& final(self).pending_v() =~= st.kept
                        &&& final(self).chain_v() == old(self).chain_v()
                        &&& final(self).wallets_v() == old(self).wallets_v()
                        &&& final(self).nonces_v() == old(self).nonces_v()
                        &&& final(self).applied_v() == old(self).applied_v()
                        &&& final(self).supply_v() == old(self).supply_v()
                    },
                    Err(e) => e == ChainError::EmptyBlock && st.acc.len() == 0 && *final(self)
                        == *old(self),
                }
            }),
    {
        let ghost ws = self.wallets_v();
        let ghost pv = self.pending_v();
        let ghost init = mine_init(self.wallets_v(), self.applied_v());
        // shadow balances
        let mut shadow = Table::new();
        let mut i: usize = 0;
        proof {
            assert(bal_pairs(ws).subrange(0, 0) =~= Seq::<(Seq<char>, u64)>::empty());
            assert(shadow.pairs() =~= bal_pairs(ws).subrange(0, 0));
        }
        while i < self.wallets.len()
            invariant
                ws == self.wallets_v(),
                old(self).wf(),
                *self == *old(self),
                ws.len() == self.wallets@.len(),
                wdistinct(ws),
                forall|k: int| 0 <= k < ws.len() ==> wallet_wf(#[trigger] ws[k]),
                0 <= i <= ws.len(),
                shadow.pairs() =~= bal_pairs(ws).subrange(0, i as int),
            decreases ws.len() - i,
        {
            let a = self.wallets[i].address.clone();
            let b = self.wallets[i].balance;
            let ghost prev = shadow.pairs();
            proof {
                assert(forall|k: int|
                    0 <= k < i ==> (#[trigger] prev[k]).0 == ws[k].address);
                assert(forall|k: int| 0 <= k < i ==> ws[k].address != ws[i as int].address);
                lemma_tget_none(prev, a@);
                lemma_tset_is_append(prev, a@, b);
            }
            shadow.set(&a, b);
            proof {
                assert(shadow.pairs() =~= prev.push((a@, b)));
                assert(bal_pairs(ws).subrange(0, i + 1) =~= prev.push((a@, b)));
            }
            i = i + 1;
        }
        proof {
            assert(bal_pairs(ws).subrange(0, ws.len() as int) =~= bal_pairs(ws));
            assert(shadow.pairs() =~= init.shadow);
        }
        // last applied nonces
        let mut last = self.applied.duplicate();
        // the pass
        let mut accv: Vec<Transaction> = Vec::new();
        let mut keptv: Vec<Transaction> = Vec::new();
        let ghost st0 = init;
        let mut j: usize = 0;
        proof {
            assert(pv.subrange(0, 0) =~= Seq::<TxV>::empty());
            assert(mine_fold(init, pv.subrange(0, 0), ws) == init);
            assert(tvalid(init.shadow)) by {
                assert(forall|k: int|
                    0 <= k < ws.len() ==> (#[trigger] bal_pairs(ws)[k]).0 == ws[k].address);
            }
            assert(tvalid(init.last));
        }
        while j < self.pending.len()
            invariant
                ws == self.wallets_v(),
                pv == self.pending_v(),
                init == mine_init(old(self).wallets_v(), old(self).applied_v()),
                old(self).wf(),
                *self == *old(self),
                self.wf(),
                pv.len() == self.pending@.len(),
                0 <= j <= pv.len(),
                ({
                    let st = mine_fold(init, pv.subrange(0, j as int), ws);
                    &&& shadow.pairs() == st.shadow
                    &&& last.pairs() == st.last
                    &&& txs_views(accv@) =~= st.acc
                    &&& txs_views(keptv@) =~= st.kept
                    &&& tvalid(st.shadow)
                    &&& forall|k: int| 0 <= k < st.acc.len() ==> tx_wf(#[trigger] st.acc[k])
                    &&& forall|k: int| 0 <= k < st.kept.len() ==> tx_wf(#[trigger] st.kept[k])
                }),
            decreases pv.len() - j,
        {
            let ghost stj = mine_fold(init, pv.subrange(0, j as int), ws);
            let t = self.pending[j].clone();
            proof {
                assert(t@ == pv[j as int]);
                assert(tx_wf(t@));
                let cur = pv.subrange(0, j + 1);
                assert(cur.drop_last() =~= pv.subrange(0, j as int));
                assert(cur.last() == pv[j as int]);
                assert(cur =~= pv.subrange(0, j as int).push(pv[j as int]));
                lemma_mine_fold_snoc(init, pv.subrange(0, j as int), pv[j as int], ws);
            }
            let sok = self.verify_signature(&t);
            if !sok {
                proof {
                    assert(mine_fold(init, pv.subrange(0, j + 1), ws) == stj);
                }
                j = j + 1;
                continue ;
            }
            let last_n = match last.get(&t.from) {
                Some(n) => n,
                None => 0,
            };
            let ghost stepped = mine_step(stj, t@, ws);
            if last_n == u64::MAX || t.nonce != last_n + 1 {
                // nonce out of order
                proof {
                    assert(t@.nonce != tget_or_zero(stj.last, t@.from) + 1 || last_n
                        == u64::MAX);
                    if last_n == u64::MAX && t.nonce == last_n + 1 {
                        assert(t@.nonce <= u64::MAX);
                        assert(false);
                    }
                    assert(stepped.kept == stj.kept.push(t@));
                }
                keptv.push(t);
                proof {
                    assert(txs_views(keptv@) =~= stepped.kept);
                }
                j = j + 1;
                continue ;
            }
            let bal = match shadow.get(&t.from) {
                Some(b) => b,
                None => 0,
            };
            if bal < t.amount + t.fee {
                proof {
                    assert(stepped.kept == stj.kept.push(t@));
                }
                keptv.push(t);
                proof {
                    assert(txs_views(keptv@) =~= stepped.kept);
                }
                j = j + 1;
                continue ;
            }
            let nf = bal - t.amount - t.fee;
            let rb = if t.to == t.from {
                nf
            } else {
                match shadow.get(&t.to) {
                    Some(b) => b,
                    None => 0,
                }
            };
            if rb > u64::MAX - t.amount {
                proof {
                    assert(stepped.kept == stj.kept.push(t@));
                }
                keptv.push(t);
                proof {
                    assert(txs_views(keptv@) =~= stepped.kept);
                }
                j = j + 1;
                continue ;
            }
            // accept
            proof {
                lemma_tset_distinct_free(stj.shadow, t@.from, nf);
                lemma_tset_distinct_free(tset(stj.shadow, t@.from, nf), t@.to, (rb
                    + t.amount) as u64);
            }
            shadow.set(&t.from, nf);
            shadow.set(&t.to, rb + t.amount);
            last.set(&t.from, t.nonce);
            accv.push(t);
            proof {
                assert(shadow.pairs() =~= stepped.shadow);
                assert(last.pairs() =~= stepped.last);
                assert(txs_views(accv@) =~= stepped.acc);
            }
            j = j + 1;
        }
        proof {
            assert(pv.subrange(0, pv.len() as int) =~= pv);
        }
        let ghost stf = mine_fold(init, pv, ws);
        if accv.len() == 0 {
            proof {
                assert(stf.acc.len() == 0);
            }
            return Err(ChainError::EmptyBlock);
        }
        // assemble
        let tipi = self.chain.len() - 1;
        let index = self.chain[tipi].index + 1;
        let prev_hash = self.chain[tipi].hash.clone();
        let timestamp = current_timestamp();
        let state_root = Self::compute_state_root(&shadow);
        proof {
            assert(block_wf(self.chain_v()[tipi as int]));
            lemma_addr_chars_ascii(prev_hash@);
            assert(valid_addr(state_root@));
            lemma_addr_chars_ascii(state_root@);
            assert forall|k: int| 0 <= k < accv@.len() implies crate::model::safe_text(
                #[trigger] accv@[k]@.tx_id,
            ) by {
                assert(txs_views(accv@)[k] == accv@[k]@);
                assert(tx_wf(stf.acc[k]));
            }
        }
        let hash = compute_block_hash(
            index,
            timestamp,
            prev_hash.as_str(),
            state_root.as_str(),
            &accv,
        );
        proof {
            assert(valid_addr(hash@));
        }
        let blk = Block {
            index,
            timestamp,
            transactions: accv,
            prev_hash,
            hash,
            proposer,
            state_root,
        };
        self.pending = keptv;
        proof {
            assert(blk@.transactions =~= txs_views(blk.transactions@));
            assert(blk@.transactions =~= stf.acc);
            assert(block_wf(blk@)) by {
                assert(forall|k: int|
                    0 <= k < blk@.transactions.len() ==> tx_wf(#[trigger] blk@.transactions[k]));
            }
            assert(self.pending_v() =~= stf.kept);
            assert(forall|k: int|
                0 <= k < self.pending_v().len() ==> tx_wf(#[trigger] self.pending_v()[k]));
        }
        Ok(blk)
    }
}

/// A binding with a lawful key keeps a table lawful.
pub proof fn lemma_tset_distinct_free(ps: Seq<(Seq<char>, u64)>, k: Seq<char>, v: u64)
    requires
        tvalid(ps),
        valid_addr(k),
    ensures
        tvalid(tset(ps, k, v)),
    decreases ps.len(),
{
    if ps.len() == 0 {
        assert(tset(ps, k, v)[0] == (k, v));
    } else if ps[0].0 == k {
        assert(tset(ps, k, v)[0] == (k, v));
        assert(tset(ps, k, v).drop_first() =~= ps.drop_first());
        assert forall|i: int| 0 <= i < tset(ps, k, v).len() implies valid_addr(
            (#[trigger] tset(ps, k, v)[i]).0,
        ) by {
            if i > 0 {
                assert(tset(ps, k, v)[i] == ps[i]);
            }
        }
    } else {
        assert(tvalid(ps.drop_first())) by {
            assert(forall|i: int|
                0 <= i < ps.drop_first().len() ==> ps.drop_first()[i] == ps[i + 1]);
        }
        lemma_tset_distinct_free(ps.drop_first(), k, v);
        assert(tset(ps, k, v)[0] == ps[0]);
        assert(tset(ps, k, v).drop_first() =~= tset(ps.drop_first(), k, v));
        assert forall|i: int| 0 <= i < tset(ps, k, v).len() implies valid_addr(
            (#[trigger] tset(ps, k, v)[i]).0,
        ) by {
            if i > 0 {
                assert(tset(ps, k, v)[i] == tset(ps.drop_first(), k, v)[i - 1]);
            }
        }
    }
}

/// A saturating increment.
pub open spec fn sat_inc(x: u64) -> u64 {
    if x == u64::MAX {
        x
    } else {
        (x + 1) as u64
    }
}

/// A timestamp clamped to never precede creation.
pub open spec fn stamp(now: u64, created: u64) -> u64 {
    if now < created {
        created
    } else {
        now
    }
}

/// Applying one transaction to a wallet list: debit the sender by amount
/// plus fee, credit the recipient by the amount (creating its wallet on
/// first receipt), count the transaction on both parties and stamp them.
/// Fails when the sender is unknown, short of funds, or the credit would
/// not fit.
pub open spec fn apply_step(ws: Seq<WalletV>, t: TxV, now: u64) -> Option<Seq<WalletV>> {
    match wfind(ws, t.from) {
        None => None,
        Some(sw) => if sw.balance < t.amount + t.fee {
            None
        } else {
            let sw2 = WalletV {
                balance: (sw.balance - t.amount - t.fee) as u64,
                tx_count: sat_inc(sw.tx_count),
                last_updated: stamp(now, sw.created_at),
                ..sw
            };
            let ws1 = crate::accounts::wset(ws, t.from, sw2);
            match wfind(ws1, t.to) {
                Some(rw) => if rw.balance + t.amount > u64::MAX {
                    None
                } else {
                    let rw2 = WalletV {
                        balance: (rw.balance + t.amount) as u64,
                        tx_count: sat_inc(rw.tx_count),
                        last_updated: stamp(now, rw.created_at),
                        ..rw
                    };
                    Some(crate::accounts::wset(ws1, t.to, rw2))
                },
                None => Some(
                    ws1.push(
                        WalletV {
                            address: t.to,
                            public_key: ed25519_pk_of(seed_of(t.to)),
                            balance: t.amount,
                            tx_count: 1,
                            created_at: now,
                            last_updated: now,
                        },
                    ),
                ),
            }
        },
    }
}

/// Applying a block's transactions in order; any failure fails the whole
/// application.
pub open spec fn apply_fold(ws: Seq<WalletV>, ts: Seq<TxV>, now: u64) -> Option<Seq<WalletV>>
    decreases ts.len(),
{
    if ts.len() == 0 {
        Some(ws)
    } else {
        match apply_step(ws, ts[0], now) {
            Some(ws1) => apply_fold(ws1, ts.drop_first(), now),
            None => None,
        }
    }
}

/// The nonce table after a block's transactions are applied.
pub open spec fn applied_after(
    ps: Seq<(Seq<char>, u64)>,
    ts: Seq<TxV>,
) -> Seq<(Seq<char>, u64)>
    decreases ts.len(),
{
    if ts.len() == 0 {
        ps
    } else {
        applied_after(tset(ps, ts[0].from, ts[0].nonce), ts.drop_first())
    }
}

/// A left fold steps once more on an appended transaction.
proof fn lemma_apply_fold_snoc(ws: Seq<WalletV>, ts: Seq<TxV>, t: TxV, now: u64)
    ensures
        apply_fold(ws, ts.push(t), now) == match apply_fold(ws, ts, now) {
            Some(ws1) => apply_step(ws1, t, now),
            None => None,
        },
    decreases ts.len(),
{
    if ts.len() == 0 {
        assert(ts.push(t)[0] == t);
        assert(ts.push(t).drop_first() =~= Seq::<TxV>::empty());
        match apply_step(ws, t, now) {
            Some(ws1) => {
                assert(apply_fold(ws1, Seq::<TxV>::empty(), now) == Some(ws1));
            },
            None => {},
        }
    } else {
        assert(ts.push(t)[0] == ts[0]);
        assert(ts.push(t).drop_first() =~= ts.drop_first().push(t));
        match apply_step(ws, ts[0], now) {
            Some(ws1) => {
                lemma_apply_fold_snoc(ws1, ts.drop_first(), t, now);
            },
            None => {},
        }
    }
}

/// The nonce fold steps once more on an appended transaction.
pub proof fn lemma_applied_after_snoc(ps: Seq<(Seq<char>, u64)>, ts: Seq<TxV>, t: TxV)
    ensures
        applied_after(ps, ts.push(t)) == tset(applied_after(ps, ts), t.from, t.nonce),
    decreases ts.len(),
{
    if ts.len() == 0 {
        assert(ts.push(t)[0] == t);
        assert(ts.push(t).drop_first() =~= Seq::<TxV>::empty());
        assert(applied_after(tset(ps, t.from, t.nonce), Seq::<TxV>::empty()) == tset(
            ps,
            t.from,
            t.nonce,
        ));
        assert(applied_after(ps, Seq::<TxV>::empty()) == ps);
        assert(applied_after(ps, ts) == ps);
    } else {
        assert(ts.push(t)[0] == ts[0]);
        assert(ts.push(t).drop_first() =~= ts.drop_first().push(t));
        lemma_applied_after_snoc(tset(ps, ts[0].from, ts[0].nonce), ts.drop_first(), t);
    }
}

/// The nonce fold splits over concatenation.
proof fn lemma_applied_after_concat(
    ps: Seq<(Seq<char>, u64)>,
    x: Seq<TxV>,
    y: Seq<TxV>,
)
    ensures
        applied_after(ps, x + y) == applied_after(applied_after(ps, x), y),
    decreases y.len(),
{
    if y.len() == 0 {
        assert(x + y =~= x);
    } else {
        lemma_applied_after_concat(ps, x, y.drop_last());
        assert((x + y).drop_last() =~= x + y.drop_last());
        assert(x + y =~= (x + y.drop_last()).push(y.last()));
        lemma_applied_after_snoc(ps, x + y.drop_last(), y.last());
        assert(y =~= y.drop_last().push(y.last()));
        lemma_applied_after_snoc(applied_after(ps, x), y.drop_last(), y.last());
    }
}

/// A failed prefix fails the whole application.
proof fn lemma_apply_fold_absorb(ws: Seq<WalletV>, ts: Seq<TxV>, now: u64, j: int)
    requires
        0 <= j <= ts.len(),
        apply_fold(ws, ts.subrange(0, j), now) is None,
    ensures
        apply_fold(ws, ts, now) is None,
    decreases ts.len() - j,
{
    if j == ts.len() {
        assert(ts.subrange(0, j) =~= ts);
    } else {
        let cur = ts.subrange(0, j + 1);
        assert(cur.drop_last() =~= ts.subrange(0, j));
        assert(cur =~= ts.subrange(0, j).push(ts[j]));
        lemma_apply_fold_snoc(ws, ts.subrange(0, j), ts[j], now);
        lemma_apply_fold_absorb(ws, ts, now, j + 1);
    }
}

/// Whether every transaction of a sequence applies in order: each sender
/// known and funded when its turn comes, and every credit within range. The
/// clock reading feeds only the stamps, never a balance or a lookup, so
/// success does not depend on it (`lemma_apply_fold_indep`).
pub open spec fn applicable(ws: Seq<WalletV>, ts: Seq<TxV>) -> bool {
    forall|now: u64| apply_fold(ws, ts, now) is Some
}

/// Two wallet lists that agree on everything but their time stamps.
spec fn wtimeless(a: Seq<WalletV>, b: Seq<WalletV>) -> bool {
    &&& a.len() == b.len()
    &&& forall|i: int|
        0 <= i < a.len() ==> {
            &&& (#[trigger] a[i]).address == b[i].address
            &&& a[i].public_key == b[i].public_key
            &&& a[i].balance == b[i].balance
            &&& a[i].tx_count == b[i].tx_count
        }
}

/// Lookups agree, stamps aside, on lists that agree stamps aside.
proof fn lemma_wfind_timeless(a: Seq<WalletV>, b: Seq<WalletV>, x: Seq<char>)
    requires
        wtimeless(a, b),
    ensures
        wfind(a, x) is Some <==> wfind(b, x) is Some,
        wfind(a, x) is Some ==> {
            let wa = wfind(a, x).unwrap();
            let wb = wfind(b, x).unwrap();
            &&& wa.address == wb.address
            &&& wa.public_key == wb.public_key
            &&& wa.balance == wb.balance
            &&& wa.tx_count == wb.tx_count
        },
    decreases a.len(),
{
    if a.len() == 0 {
    } else if a[0].address == x {
        assert(b[0].address == x);
    } else {
        assert(wtimeless(a.drop_first(), b.drop_first())) by {
            assert(forall|i: int|
                0 <= i < a.drop_first().len() ==> #[trigger] a.drop_first()[i] == a[i + 1]
                    && b.drop_first()[i] == b[i + 1]);
        }
        lemma_wfind_timeless(a.drop_first(), b.drop_first(), x);
    }
}

/// Replacement keeps lists agreeing, stamps aside.
proof fn lemma_wset_timeless(
    a: Seq<WalletV>,
    b: Seq<WalletV>,
    x: Seq<char>,
    wa: WalletV,
    wb: WalletV,
)
    requires
        wtimeless(a, b),
        wa.address == wb.address,
        wa.public_key == wb.public_key,
        wa.balance == wb.balance,
        wa.tx_count == wb.tx_count,
    ensures
        wtimeless(crate::accounts::wset(a, x, wa), crate::accounts::wset(b, x, wb)),
    decreases a.len(),
{
    let ra = crate::accounts::wset(a, x, wa);
    let rb = crate::accounts::wset(b, x, wb);
    if a.len() == 0 {
        assert(ra[0] == wa);
        assert(rb[0] == wb);
    } else if a[0].address == x {
        assert(b[0].address == x);
        assert(ra[0] == wa);
        assert(rb[0] == wb);
        assert forall|i: int| 0 <= i < ra.len() implies (#[trigger] ra[i]).address
            == rb[i].address && ra[i].public_key == rb[i].public_key && ra[i].balance
            == rb[i].balance && ra[i].tx_count == rb[i].tx_count by {
            if i > 0 {
                assert(ra[i] == a.drop_first()[i - 1]);
                assert(rb[i] == b.drop_first()[i - 1]);
                assert(a.drop_first()[i - 1] == a[i]);
                assert(b.drop_first()[i - 1] == b[i]);
            }
        }
    } else {
        assert(b[0].address != x);
        assert(wtimeless(a.drop_first(), b.drop_first())) by {
            assert(forall|i: int|
                0 <= i < a.drop_first().len() ==> #[trigger] a.drop_first()[i] == a[i + 1]
                    && b.drop_first()[i] == b[i + 1]);
        }
        lemma_wset_timeless(a.drop_first(), b.drop_first(), x, wa, wb);
        let ta = crate::accounts::wset(a.drop_first(), x, wa);
        let tb = crate::accounts::wset(b.drop_first(), x, wb);
        assert forall|i: int| 0 <= i < ra.len() implies (#[trigger] ra[i]).address
            == rb[i].address && ra[i].public_key == rb[i].public_key && ra[i].balance
            == rb[i].balance && ra[i].tx_count == rb[i].tx_count by {
            if i == 0 {
                assert(ra[0] == a[0]);
                assert(rb[0] == b[0]);
            } else {
                assert(ra[i] == ta[i - 1]);
                assert(rb[i] == tb[i - 1]);
            }
        }
    }
}

/// One application step succeeds at one clock reading exactly when it
/// succeeds at another, and the results agree, stamps aside.
proof fn lemma_apply_step_timeless(a: Seq<WalletV>, b: Seq<WalletV>, t: TxV, n1: u64, n2: u64)
    requires
        wtimeless(a, b),
    ensures
        apply_step(a, t, n1) is Some <==> apply_step(b, t, n2) is Some,
        apply_step(a, t, n1) is Some ==> wtimeless(
            apply_step(a, t, n1).unwrap(),
            apply_step(b, t, n2).unwrap(),
        ),
{
    lemma_wfind_timeless(a, b, t.from);
    match wfind(a, t.from) {
        None => {},
        Some(swa) => {
            let swb = wfind(b, t.from).unwrap();
            if swa.balance < t.amount + t.fee {
            } else {
                let sw2a = WalletV {
                    balance: (swa.balance - t.amount - t.fee) as u64,
                    tx_count: sat_inc(swa.tx_count),
                    last_updated: stamp(n1, swa.created_at),
                    ..swa
                };
                let sw2b = WalletV {
                    balance: (swb.balance - t.amount - t.fee) as u64,
                    tx_count: sat_inc(swb.tx_count),
                    last_updated: stamp(n2, swb.created_at),
                    ..swb
                };
                let ws1a = crate::accounts::wset(a, t.from, sw2a);
                let ws1b = crate::accounts::wset(b, t.from, sw2b);
                lemma_wset_timeless(a, b, t.from, sw2a, sw2b);
                lemma_wfind_timeless(ws1a, ws1b, t.to);
                match wfind(ws1a, t.to) {
                    Some(rwa) => {
                        let rwb = wfind(ws1b, t.to).unwrap();
                        if rwa.balance + t.amount > u64::MAX {
                        } else {
                            let rw2a = WalletV {
                                balance: (rwa.balance + t.amount) as u64,
                                tx_count: sat_inc(rwa.tx_count),
                                last_updated: stamp(n1, rwa.created_at),
                                ..rwa
                            };
                            let rw2b = WalletV {
                                balance: (rwb.balance + t.amount) as u64,
                                tx_count: sat_inc(rwb.tx_count),
                                last_updated: stamp(n2, rwb.created_at),
                                ..rwb
                            };
                            lemma_wset_timeless(ws1a, ws1b, t.to, rw2a, rw2b);
                        }
                    },
                    None => {
                        let na = WalletV {
                            address: t.to,
                            public_key: ed25519_pk_of(seed_of(t.to)),
                            balance: t.amount,
                            tx_count: 1,
                            created_at: n1,
                            last_updated: n1,
                        };
                        let nb = WalletV {
                            address: t.to,
                            public_key: ed25519_pk_of(seed_of(t.to)),
                            balance: t.amount,
                            tx_count: 1,
                            created_at: n2,
                            last_updated: n2,
                        };
                        assert forall|i: int| 0 <= i < ws1a.push(na).len() implies (
                        #[trigger] ws1a.push(na)[i]).address == ws1b.push(nb)[i].address
                            && ws1a.push(na)[i].public_key == ws1b.push(nb)[i].public_key
                            && ws1a.push(na)[i].balance == ws1b.push(nb)[i].balance && ws1a.push(
                            na,
                        )[i].tx_count == ws1b.push(nb)[i].tx_count by {
                            if i < ws1a.len() {
                                assert(ws1a.push(na)[i] == ws1a[i]);
                                assert(ws1b.push(nb)[i] == ws1b[i]);
                            } else {
                                assert(ws1a.push(na)[i] == na);
                                assert(ws1b.push(nb)[i] == nb);
                            }
                        }
                        assert(wtimeless(ws1a.push(na), ws1b.push(nb)));
                    },
                }
            }
        },
    }
}

/// A whole application succeeds at one clock reading exactly when it
/// succeeds at another.
proof fn lemma_apply_fold_timeless(a: Seq<WalletV>, b: Seq<WalletV>, ts: Seq<TxV>, n1: u64, n2: u64)
    requires
        wtimeless(a, b),
    ensures
        apply_fold(a, ts, n1) is Some <==> apply_fold(b, ts, n2) is Some,
    decreases ts.len(),
{
    if ts.len() == 0 {
    } else {
        lemma_apply_step_timeless(a, b, ts[0], n1, n2);
        match apply_step(a, ts[0], n1) {
            Some(a1) => {
                let b1 = apply_step(b, ts[0], n2).unwrap();
                lemma_apply_fold_timeless(a1, b1, ts.drop_first(), n1, n2);
            },
            None => {},
        }
    }
}

/// Whether a transaction list applies does not depend on the clock reading:
/// the stamps it writes never feed a balance or a lookup.
pub proof fn lemma_apply_fold_indep(ws: Seq<WalletV>, ts: Seq<TxV>, n1: u64, n2: u64)
    ensures
        apply_fold(ws, ts, n1) is Some <==> apply_fold(ws, ts, n2) is Some,
{
    assert(wtimeless(ws, ws));
    lemma_apply_fold_timeless(ws, ws, ts, n1, n2);
}

impl CommunityBlockchain {
    /// Clones the wallet list.
    fn dup_wallets(ws: &Vec<Wallet>) -> (r: Vec<Wallet>)
        ensures
            wv(r@) =~= wv(ws@),
    {
        let mut out: Vec<Wallet> = Vec::new();
        let mut i: usize = 0;
        while i < ws.len()
            invariant
                0 <= i <= ws@.len(),
                out@.len() == i,
                forall|k: int| 0 <= k < i ==> #[trigger] out@[k]@ == ws@[k]@,
            decreases ws@.len() - i,
        {
            out.push(ws[i].clone());
            i = i + 1;
        }
        out
    }

    /// Applies a block's transactions to a staged copy of the wallet list;
    /// nothing is committed on failure.
    #[verifier::rlimit(100)]
    fn apply_staged(ws: &Vec<Wallet>, txs: &Vec<Transaction>, now: u64) -> (r: Result<
        Vec<Wallet>,
        ChainError,
    >)
        requires
            wdistinct(wv(ws@)),
            forall|i: int| 0 <= i < wv(ws@).len() ==> wallet_wf(#[trigger] wv(ws@)[i]),
            forall|i: int| 0 <= i < txs@.len() ==> tx_wf(#[trigger] txs@[i]@),
        ensures
            match r {
                Ok(out) => {
                    &&& apply_fold(wv(ws@), txs_views(txs@), now) == Some(wv(out@))
                    &&& wdistinct(wv(out@))
                    &&& forall|i: int| 0 <= i < wv(out@).len() ==> wallet_wf(#[trigger] wv(out@)[i])
                    &&& wsum(wv(out@)) == wsum(wv(ws@)) - txs_fees(txs_views(txs@))
                },
                Err(e) => e == ChainError::InsufficientFunds && apply_fold(
                    wv(ws@),
                    txs_views(txs@),
                    now,
                ) is None,
            },
    {
        let ghost ws0 = wv(ws@);
        let ghost tv = txs_views(txs@);
        let mut staged = Self::dup_wallets(ws);
        let mut k: usize = 0;
        proof {
            assert(tv.subrange(0, 0) =~= Seq::<TxV>::empty());
            assert(apply_fold(ws0, tv.subrange(0, 0), now) == Some(ws0));
            assert(txs_fees(Seq::<TxV>::empty()) == 0);
        }
        while k < txs.len()
            invariant
                ws0 == wv(ws@),
                tv == txs_views(txs@),
                tv.len() == txs@.len(),
                forall|i: int| 0 <= i < txs@.len() ==> tx_wf(#[trigger] txs@[i]@),
                0 <= k <= tv.len(),
                apply_fold(ws0, tv.subrange(0, k as int), now) == Some(wv(staged@)),
                wdistinct(wv(staged@)),
                forall|i: int|
                    0 <= i < wv(staged@).len() ==> wallet_wf(#[trigger] wv(staged@)[i]),
                wsum(wv(staged@)) == wsum(ws0) - txs_fees(tv.subrange(0, k as int)),
            decreases tv.len() - k,
        {
            let ghost svk = wv(staged@);
            proof {
                let cur = tv.subrange(0, k + 1);
                assert(cur.drop_last() =~= tv.subrange(0, k as int));
                assert(cur =~= tv.subrange(0, k as int).push(tv[k as int]));
                lemma_apply_fold_snoc(ws0, tv.subrange(0, k as int), tv[k as int], now);
                assert(txs_fees(cur) == txs_fees(tv.subrange(0, k as int)) + tv[k as int].fee);
                assert(tv[k as int] == txs@[k as int]@);
                assert(tx_wf(tv[k as int]));
            }
            let t = &txs[k];
            let si = match wallet_idx(&staged, &t.from) {
                Some(i) => i,
                None => {
                    proof {
                        lemma_apply_fold_absorb(ws0, tv, now, k + 1);
                    }
                    return Err(ChainError::InsufficientFunds);
                },
            };
            if staged[si].balance < t.amount + t.fee {
                proof {
                    lemma_apply_fold_absorb(ws0, tv, now, k + 1);
                }
                return Err(ChainError::InsufficientFunds);
            }
            let sender = &staged[si];
            let nb = sender.balance - t.amount - t.fee;
            let ntc: u64 = if sender.tx_count == u64::MAX {
                sender.tx_count
            } else {
                sender.tx_count + 1
            };
            let nlu: u64 = if now < sender.created_at {
                sender.created_at
            } else {
                now
            };
            let sw2 = Wallet {
                address: sender.address.clone(),
                public_key: vstd::slice::slice_to_vec(sender.public_key.as_slice()),
                balance: nb,
                tx_count: ntc,
                created_at: sender.created_at,
                last_updated: nlu,
            };
            let ghost sw2v = sw2@;
            proof {
                crate::accounts::lemma_wset_is_update(svk, t@.from, sw2v, si as int);
                lemma_wsum_update(svk, si as int, sw2v);
                assert forall|a2: Seq<char>| true implies #[trigger] wfind(
                    svk.update(si as int, sw2v),
                    a2,
                ) == if a2 == t@.from {
                    Some(sw2v)
                } else {
                    wfind(svk, a2)
                } by {
                    lemma_wfind_update(svk, si as int, sw2v, a2);
                }
            }
            wallet_replace(&mut staged, si, sw2);
            let ghost sv1 = wv(staged@);
            proof {
                assert(sv1 =~= crate::accounts::wset(svk, t@.from, sw2v));
                assert(wdistinct(sv1)) by {
                    assert(forall|x: int, y: int|
                        0 <= x < y < sv1.len() ==> sv1[x].address == svk.update(
                            si as int,
                            sw2v,
                        )[x].address && sv1[y].address == svk.update(si as int, sw2v)[y].address);
                }
            }
            match wallet_idx(&staged, &t.to) {
                Some(ri) => {
                    if staged[ri].balance > u64::MAX - t.amount {
                        proof {
                            lemma_apply_fold_absorb(ws0, tv, now, k + 1);
                        }
                        return Err(ChainError::InsufficientFunds);
                    }
                    let rcv = &staged[ri];
                    let rb2 = rcv.balance + t.amount;
                    let rtc: u64 = if rcv.tx_count == u64::MAX {
                        rcv.tx_count
                    } else {
                        rcv.tx_count + 1
                    };
                    let rlu: u64 = if now < rcv.created_at {
                        rcv.created_at
                    } else {
                        now
                    };
                    let rw2 = Wallet {
                        address: rcv.address.clone(),
                        public_key: vstd::slice::slice_to_vec(rcv.public_key.as_slice()),
                        balance: rb2,
                        tx_count: rtc,
                        created_at: rcv.created_at,
                        last_updated: rlu,
                    };
                    let ghost rw2v = rw2@;
                    proof {
                        crate::accounts::lemma_wset_is_update(sv1, t@.to, rw2v, ri as int);
                        lemma_wsum_update(sv1, ri as int, rw2v);
                    }
                    wallet_replace(&mut staged, ri, rw2);
                    proof {
                        assert(wv(staged@) =~= crate::accounts::wset(sv1, t@.to, rw2v));
                        assert(wv(staged@) =~= sv1.update(ri as int, rw2v));
                        assert(apply_fold(ws0, tv.subrange(0, k + 1), now) == Some(wv(staged@)));
                        assert(wdistinct(wv(staged@)));
                    }
                },
                None => {
                    let mut w = Self::make_wallet(t.to.clone(), t.amount, now);
                    w.tx_count = 1;
                    proof {
                        crate::accounts::lemma_wset_is_append(sv1, t@.to, w@);
                        lemma_wsum_push(sv1, w@);
                        lemma_wdistinct_push(sv1, w@);
                    }
                    staged.push(w);
                    proof {
                        assert(wv(staged@) =~= sv1.push(wv(staged@).last()));
                        assert(wv(staged@) =~= crate::accounts::wset(sv1, t@.to, wv(
                            staged@,
                        ).last()));
                        assert(apply_fold(ws0, tv.subrange(0, k + 1), now) == Some(wv(staged@)));
                    }
                },
            }
            k = k + 1;
        }
        proof {
            assert(tv.subrange(0, tv.len() as int) =~= tv);
        }
        Ok(staged)
    }
}

/// Appending a block adds its fees to the chain's destroyed total.
proof fn lemma_chain_fees_push(ch: Seq<BlockV>, b: BlockV)
    ensures
        chain_fees(ch.push(b)) == chain_fees(ch) + block_fees(b),
        chain_txs(ch.push(b)) =~= chain_txs(ch) + b.transactions,
{
    assert(ch.push(b).drop_last() =~= ch);
    assert(ch.push(b).last() == b);
}

impl CommunityBlockchain {
    /// Persists a block and the staged wallets, then makes the writes
    /// durable.
    fn persist_all(
        store: &mut crate::store::Store,
        block: &Block,
        staged: &Vec<Wallet>,
    ) -> (r: Result<(), ChainError>)
        requires
            block_wf(block@),
            forall|i: int| 0 <= i < wv(staged@).len() ==> wallet_wf(#[trigger] wv(staged@)[i]),
        ensures
            match r {
                Ok(_) => true,
                Err(e) => e == ChainError::PersistenceError,
            },
    {
        let bbytes = encode_block(block);
        let bkey = block_key(block.index);
        match store.put(bkey.as_slice(), bbytes.as_slice()) {
            Ok(_) => {},
            Err(_) => {
                return Err(ChainError::PersistenceError);
            },
        }
        let mut k: usize = 0;
        while k < staged.len()
            invariant
                forall|i: int|
                    0 <= i < wv(staged@).len() ==> wallet_wf(#[trigger] wv(staged@)[i]),
                0 <= k <= staged@.len(),
            decreases staged@.len() - k,
        {
            proof {
                assert(wallet_wf(wv(staged@)[k as int]));
                lemma_addr_chars_ascii(staged@[k as int].address@);
            }
            let wbytes = encode_wallet(&staged[k]);
            let wkey = wallet_key(staged[k].address.as_str());
            match store.put(wkey.as_slice(), wbytes.as_slice()) {
                Ok(_) => {},
                Err(_) => {
                    return Err(ChainError::PersistenceError);
                },
            }
            k = k + 1;
        }
        match store.flush() {
            Ok(_) => {},
            Err(_) => {
                return Err(ChainError::PersistenceError);
            },
        }
        Ok(())
    }

    /// Records each applied transaction: the sender's last nonce and a
    /// back-reference for both parties.
    fn record_applied(
        applied: &mut Table,
        tx_index: &mut Vec<AddrTxs>,
        block: &Block,
    ) -> (r: ())
        requires
            block_wf(block@),
            tdistinct(old(applied).pairs()),
            tvalid(old(applied).pairs()),
        ensures
            final(applied).pairs() =~= applied_after(old(applied).pairs(), block@.transactions),
            tdistinct(final(applied).pairs()),
            tvalid(final(applied).pairs()),
    {
        let ghost ap0 = applied.pairs();
        let ghost bv = block@;
        let mut k2: usize = 0;
        proof {
            assert(bv.transactions.subrange(0, 0) =~= Seq::<TxV>::empty());
            assert(applied_after(ap0, bv.transactions.subrange(0, 0)) == ap0);
        }
        while k2 < block.transactions.len()
            invariant
                block_wf(bv),
                bv == block@,
                ap0 == old(applied).pairs(),
                bv.transactions.len() == block.transactions@.len(),
                0 <= k2 <= bv.transactions.len(),
                applied.pairs() == applied_after(ap0, bv.transactions.subrange(0, k2 as int)),
                tdistinct(applied.pairs()),
                tvalid(applied.pairs()),
            decreases bv.transactions.len() - k2,
        {
            let t = &block.transactions[k2];
            proof {
                assert(bv.transactions[k2 as int] == block.transactions@[k2 as int]@);
                assert(tx_wf(bv.transactions[k2 as int]));
                lemma_tset_distinct(applied.pairs(), t@.from, t.nonce);
                lemma_tset_distinct_free(applied.pairs(), t@.from, t.nonce);
                let cur = bv.transactions.subrange(0, k2 + 1);
                assert(cur.drop_last() =~= bv.transactions.subrange(0, k2 as int));
                assert(cur =~= bv.transactions.subrange(0, k2 as int).push(
                    bv.transactions[k2 as int],
                ));
                lemma_applied_after_snoc(
                    ap0,
                    bv.transactions.subrange(0, k2 as int),
                    bv.transactions[k2 as int],
                );
            }
            applied.set(&t.from, t.nonce);
            let e1 = TransactionIndex {
                tx_id: t.tx_id.clone(),
                block_index: block.index,
                tx_index_in_block: k2,
            };
            let e2 = TransactionIndex {
                tx_id: t.tx_id.clone(),
                block_index: block.index,
                tx_index_in_block: k2,
            };
            Self::index_append(tx_index, &t.from, e1);
            Self::index_append(tx_index, &t.to, e2);
            k2 = k2 + 1;
        }
        proof {
            assert(bv.transactions.subrange(0, bv.transactions.len() as int)
                =~= bv.transactions);
        }
    }
}


/// An engine whose views all match a well-formed engine's is well formed.
proof fn lemma_wf_frame(a: CommunityBlockchain, b: CommunityBlockchain)
    requires
        a.wf(),
        b.chain_v() == a.chain_v(),
        b.wallets_v() == a.wallets_v(),
        b.pending_v() == a.pending_v(),
        b.nonces_v() == a.nonces_v(),
        b.applied_v() == a.applied_v(),
        b.supply_v() == a.supply_v(),
    ensures
        b.wf(),
{
}

impl CommunityBlockchain {
    /// Validates a sealed block against the tip — index, linkage and hash —
    /// then applies its transactions all-or-nothing: the staged balances
    /// are persisted together with the block before anything is committed
    /// in memory, so a persistence failure leaves the engine unchanged.
    #[verifier::rlimit(100)]
    pub fn add_block(&mut self, block: Block) -> (r: Result<(), ChainError>)
        requires
            old(self).wf(),
            block_wf(block@),
        ensures
            final(self).wf(),
            r == Err::<(), ChainError>(ChainError::BadIndex) <==> block@.index != old(
                self,
            ).chain_v().last().index + 1,
            r == Err::<(), ChainError>(ChainError::BadLink) <==> block@.index == old(
                self,
            ).chain_v().last().index + 1 && block@.prev_hash != old(self).chain_v().last().hash,
            r == Err::<(), ChainError>(ChainError::BadHash) <==> block@.index == old(
                self,
            ).chain_v().last().index + 1 && block@.prev_hash == old(self).chain_v().last().hash
                && block@.hash != block_hash_chars(
                block@.index,
                block@.timestamp,
                block@.prev_hash,
                block@.state_root,
                block@.transactions,
            ),
            r == Err::<(), ChainError>(ChainError::InsufficientFunds) <==> block@.index == old(
                self,
            ).chain_v().last().index + 1 && block@.prev_hash == old(self).chain_v().last().hash
                && block@.hash == block_hash_chars(
                block@.index,
                block@.timestamp,
                block@.prev_hash,
                block@.state_root,
                block@.transactions,
            ) && !applicable(old(self).wallets_v(), block@.transactions),
            r is Err ==> r == Err::<(), ChainError>(ChainError::BadIndex) || r == Err::<
                (),
                ChainError,
            >(ChainError::BadLink) || r == Err::<(), ChainError>(ChainError::BadHash) || r
                == Err::<(), ChainError>(ChainError::InsufficientFunds) || r == Err::<
                (),
                ChainError,
            >(ChainError::PersistenceError),
            r is Err ==> final(self).chain_v() == old(self).chain_v() && final(self).wallets_v()
                == old(self).wallets_v() && final(self).pending_v() == old(self).pending_v()
                && final(self).nonces_v() == old(self).nonces_v() && final(self).applied_v()
                == old(self).applied_v() && final(self).supply_v() == old(self).supply_v(),
            r is Ok ==> {
                &&& final(self).chain_v() =~= old(self).chain_v().push(block@)
                &&& exists|now: u64|
                    apply_fold(old(self).wallets_v(), block@.transactions, now) == Some(
                        #[trigger] wv_now(final(self).wallets_v(), now),
                    )
                &&& wsum(final(self).wallets_v()) == wsum(old(self).wallets_v()) - txs_fees(
                    block@.transactions,
                )
                &&& final(self).pending_v() == old(self).pending_v()
                &&& final(self).nonces_v() == old(self).nonces_v()
                &&& final(self).applied_v() =~= applied_after(
                    old(self).applied_v(),
                    block@.transactions,
                )
                &&& final(self).supply_v() == old(self).supply_v()
                &&& (chain_valid(old(self).chain_v()) ==> chain_valid(final(self).chain_v()))
            },
    {
        let tipi = self.chain.len() - 1;
        proof {
            assert(self.chain_v().last() == self.chain_v()[tipi as int]);
            assert(block_wf(self.chain_v()[tipi as int]));
        }
        if block.index != self.chain[tipi].index + 1 {
            return Err(ChainError::BadIndex);
        }
        if !(block.prev_hash == self.chain[tipi].hash) {
            return Err(ChainError::BadLink);
        }
        proof {
            lemma_addr_chars_ascii(block@.prev_hash);
            lemma_addr_chars_ascii(block@.state_root);
            assert forall|i: int| 0 <= i < block.transactions@.len() implies tx_wf(
                #[trigger] block.transactions@[i]@,
            ) by {
                assert(block@.transactions[i] == block.transactions@[i]@);
            }
            assert forall|i: int| 0 <= i < block.transactions@.len() implies crate::model::safe_text(
                #[trigger] block.transactions@[i]@.tx_id,
            ) by {
                assert(tx_wf(block.transactions@[i]@));
            }
        }
        let recomputed = compute_block_hash(
            block.index,
            block.timestamp,
            block.prev_hash.as_str(),
            block.state_root.as_str(),
            &block.transactions,
        );
        proof {
            assert(Seq::new(block.transactions@.len(), |i: int| block.transactions@[i]@)
                =~= block@.transactions);
        }
        if !(recomputed == block.hash) {
            return Err(ChainError::BadHash);
        }
        let now = current_timestamp();
        let ghost bv = block@;
        let staged = match Self::apply_staged(&self.wallets, &block.transactions, now) {
            Ok(v) => v,
            Err(_) => {
                proof {
                    assert(apply_fold(old(self).wallets_v(), bv.transactions, now) is None) by {
                        assert(txs_views(block.transactions@) =~= bv.transactions);
                    }
                    assert(!applicable(old(self).wallets_v(), bv.transactions));
                }
                return Err(ChainError::InsufficientFunds);
            },
        };
        proof {
            assert(apply_fold(old(self).wallets_v(), bv.transactions, now) == Some(wv(staged@)))
                by {
                assert(txs_views(block.transactions@) =~= bv.transactions);
            }
            assert forall|n: u64| apply_fold(
                old(self).wallets_v(),
                bv.transactions,
                n,
            ) is Some by {
                lemma_apply_fold_indep(old(self).wallets_v(), bv.transactions, now, n);
            }
            assert(applicable(old(self).wallets_v(), bv.transactions));
        }
        match Self::persist_all(&mut self.store, &block, &staged) {
            Ok(_) => {},
            Err(_) => {
                proof {
                    lemma_wf_frame(*old(self), *self);
                }
                return Err(ChainError::PersistenceError);
            },
        }
        // commit
        let ghost ch0 = self.chain_v();
        let ghost ap0 = self.applied_v();
        Self::record_applied(&mut self.applied, &mut self.tx_index, &block);
        self.wallets = staged;
        self.chain.push(block);
        proof {
            assert(self.chain_v() =~= ch0.push(bv));
            assert(ch0 == old(self).chain_v());
            lemma_chain_fees_push(ch0, bv);
            assert(self.wallets_v() == wv(staged@));
            assert(wsum(self.wallets_v()) == wsum(old(self).wallets_v()) - txs_fees(
                bv.transactions,
            ));
            assert(block_fees(bv) == txs_fees(bv.transactions));
            assert(chain_fees(self.chain_v()) == chain_fees(ch0) + block_fees(bv));
            assert(self.supply_v() == old(self).supply_v());
            assert(wsum(self.wallets_v()) + chain_fees(self.chain_v()) == self.supply_v());
            assert(self.pending_v() == old(self).pending_v());
            assert(forall|i: int|
                0 <= i < self.pending_v().len() ==> tx_wf(#[trigger] self.pending_v()[i]));
            assert(tdistinct(self.nonces_v()));
            assert(tvalid(self.nonces_v()));
            assert(tdistinct(self.applied_v()));
            assert(tvalid(self.applied_v()));
            assert(wdistinct(self.wallets_v()));
            assert(forall|i: int|
                0 <= i < self.wallets_v().len() ==> wallet_wf(#[trigger] self.wallets_v()[i]));
            assert(wv_now(self.wallets_v(), now) == self.wallets_v());
            assert forall|i: int| 0 <= i < self.chain_v().len() implies (
            #[trigger] self.chain_v()[i]).index == i by {
                if i < ch0.len() {
                    assert(self.chain_v()[i] == ch0[i]);
                } else {
                    assert(self.chain_v()[i] == bv);
                }
            }
            assert forall|i: int| 0 <= i < self.chain_v().len() implies block_wf(
                #[trigger] self.chain_v()[i],
            ) by {
                if i < ch0.len() {
                    assert(self.chain_v()[i] == ch0[i]);
                } else {
                    assert(self.chain_v()[i] == bv);
                }
            }
            if chain_valid(ch0) {
                assert forall|i: int| 1 <= i < self.chain_v().len() implies (
                #[trigger] self.chain_v()[i]).prev_hash == self.chain_v()[i - 1].hash
                    && self.chain_v()[i].hash == block_hash_chars(
                    self.chain_v()[i].index,
                    self.chain_v()[i].timestamp,
                    self.chain_v()[i].prev_hash,
                    self.chain_v()[i].state_root,
                    self.chain_v()[i].transactions,
                ) by {
                    if i < ch0.len() {
                        assert(self.chain_v()[i] == ch0[i]);
                        assert(self.chain_v()[i - 1] == ch0[i - 1]);
                    } else {
                        assert(self.chain_v()[i] == bv);
                        assert(self.chain_v()[i - 1] == ch0[ch0.len() - 1]);
                    }
                }
            }
        }
        Ok(())
    }

    /// Appends a back-reference to the entry list of an address.
    fn index_append(idx: &mut Vec<AddrTxs>, a: &String, e: TransactionIndex) {
        let mut i: usize = 0;
        let n = idx.len();
        while i < n
            invariant
                0 <= i <= n,
                n <= idx@.len(),
            decreases n - i,
        {
            if idx[i].address == *a {
                let mut slot = idx.remove(i);
                slot.entries.push(e);
                idx.insert(i, slot);
                return ;
            }
            i = i + 1;
        }
        let mut entries: Vec<TransactionIndex> = Vec::new();
        entries.push(e);
        idx.push(AddrTxs { address: a.clone(), entries });
    }
}

/// The wallets a given clock reading would have produced; the balances do
/// not depend on the reading.
pub open spec fn wv_now(ws: Seq<WalletV>, now: u64) -> Seq<WalletV> {
    ws
}

/// The transactions of one block that involve an address.
pub open spec fn btx_of(ts: Seq<TxV>, a: Seq<char>) -> Seq<TxV>
    decreases ts.len(),
{
    if ts.len() == 0 {
        Seq::<TxV>::empty()
    } else {
        btx_of(ts.drop_last(), a) + if ts.last().from == a || ts.last().to == a {
            seq![ts.last()]
        } else {
            Seq::<TxV>::empty()
        }
    }
}

/// The transactions of a chain that involve an address, in block order.
pub open spec fn utxs_of(ch: Seq<BlockV>, a: Seq<char>) -> Seq<TxV>
    decreases ch.len(),
{
    if ch.len() == 0 {
        Seq::<TxV>::empty()
    } else {
        utxs_of(ch.drop_last(), a) + btx_of(ch.last().transactions, a)
    }
}

/// An integer clamped into the 64-bit range.
pub open spec fn clamp_u64(x: int) -> u64 {
    if x > u64::MAX {
        u64::MAX
    } else if x < 0 {
        0u64
    } else {
        x as u64
    }
}

impl CommunityBlockchain {
    /// Checks the whole chain: every block must link to its predecessor
    /// and every hash must recompute.
    pub fn verify_chain(&self) -> (r: bool)
        requires
            self.wf(),
        ensures
            r == chain_valid(self.chain_v()),
    {
        let mut i: usize = 1;
        while i < self.chain.len()
            invariant
                self.wf(),
                self.chain_v().len() == self.chain@.len(),
                1 <= i <= self.chain@.len() || (self.chain@.len() <= 1 && i == 1),
                forall|j: int|
                    1 <= j < i ==> (#[trigger] self.chain_v()[j]).prev_hash == self.chain_v()[j
                        - 1].hash && self.chain_v()[j].hash == block_hash_chars(
                        self.chain_v()[j].index,
                        self.chain_v()[j].timestamp,
                        self.chain_v()[j].prev_hash,
                        self.chain_v()[j].state_root,
                        self.chain_v()[j].transactions,
                    ),
            decreases self.chain@.len() - i,
        {
            proof {
                assert(block_wf(self.chain_v()[i as int]));
                lemma_addr_chars_ascii(self.chain@[i as int].prev_hash@);
                lemma_addr_chars_ascii(self.chain@[i as int].state_root@);
                assert forall|k: int|
                    0 <= k < self.chain@[i as int].transactions@.len() implies
                    crate::model::safe_text(
                        #[trigger] self.chain@[i as int].transactions@[k]@.tx_id,
                    ) by {
                    assert(self.chain_v()[i as int].transactions[k] == self.chain@[
                        i as int].transactions@[k]@);
                    assert(tx_wf(self.chain_v()[i as int].transactions[k]));
                }
            }
            if !(self.chain[i].prev_hash == self.chain[i - 1].hash) {
                return false;
            }
            let h = compute_block_hash(
                self.chain[i].index,
                self.chain[i].timestamp,
                self.chain[i].prev_hash.as_str(),
                self.chain[i].state_root.as_str(),
                &self.chain[i].transactions,
            );
            proof {
                assert(Seq::new(
                    self.chain@[i as int].transactions@.len(),
                    |k: int| self.chain@[i as int].transactions@[k]@,
                ) =~= self.chain_v()[i as int].transactions);
            }
            if !(h == self.chain[i].hash) {
                return false;
            }
            i = i + 1;
        }
        true
    }

    /// The transactions involving an address, in block order.
    pub fn get_user_transactions(&self, address: &str) -> (r: Vec<Transaction>)
        ensures
            txs_views(r@) =~= utxs_of(self.chain_v(), address@),
    {
        let mut out: Vec<Transaction> = Vec::new();
        let a = address.to_owned();
        let mut i: usize = 0;
        proof {
            assert(self.chain_v().subrange(0, 0) =~= Seq::<BlockV>::empty());
            assert(txs_views(out@) =~= utxs_of(self.chain_v().subrange(0, 0), address@));
        }
        while i < self.chain.len()
            invariant
                a@ == address@,
                self.chain_v().len() == self.chain@.len(),
                0 <= i <= self.chain@.len(),
                txs_views(out@) =~= utxs_of(self.chain_v().subrange(0, i as int), address@),
            decreases self.chain@.len() - i,
        {
            let blk = &self.chain[i];
            let ghost bts = self.chain_v()[i as int].transactions;
            let mut j: usize = 0;
            proof {
                assert(bts.subrange(0, 0) =~= Seq::<TxV>::empty());
                assert(btx_of(bts.subrange(0, 0), address@) =~= Seq::<TxV>::empty());
                assert(txs_views(out@) + btx_of(bts.subrange(0, 0), address@) =~= txs_views(
                    out@,
                ));
            }
            let ghost out0 = txs_views(out@);
            while j < blk.transactions.len()
                invariant
                    a@ == address@,
                    bts.len() == blk.transactions@.len(),
                    forall|k: int| 0 <= k < bts.len() ==> bts[k] == #[trigger] blk.transactions@[k]@,
                    0 <= j <= bts.len(),
                    txs_views(out@) =~= out0 + btx_of(bts.subrange(0, j as int), address@),
                decreases bts.len() - j,
            {
                let t = &blk.transactions[j];
                proof {
                    let cur = bts.subrange(0, j + 1);
                    assert(cur.drop_last() =~= bts.subrange(0, j as int));
                    assert(cur.last() == bts[j as int]);
                    assert(bts[j as int] == blk.transactions@[j as int]@);
                }
                if t.from == a || t.to == a {
                    let ghost po = txs_views(out@);
                    out.push(t.clone());
                    proof {
                        let cur = bts.subrange(0, j + 1);
                        assert(bts[j as int].from == address@ || bts[j as int].to == address@);
                        assert(btx_of(cur, address@) =~= btx_of(bts.subrange(0, j as int), address@)
                            + seq![bts[j as int]]);
                        assert(txs_views(out@) =~= po.push(bts[j as int]));
                        assert(txs_views(out@) =~= out0 + btx_of(bts.subrange(0, j + 1), address@));
                    }
                } else {
                    proof {
                        assert(!(bts[j as int].from == address@) && !(bts[j as int].to
                            == address@));
                        assert(btx_of(bts.subrange(0, j + 1), address@) =~= btx_of(
                            bts.subrange(0, j as int),
                            address@,
                        ));
                        assert(txs_views(out@) =~= out0 + btx_of(bts.subrange(0, j + 1), address@));
                    }
                }
                j = j + 1;
            }
            proof {
                assert(bts.subrange(0, bts.len() as int) =~= bts);
                let pre = self.chain_v().subrange(0, i as int);
                let cur = self.chain_v().subrange(0, i + 1);
                assert(cur.drop_last() =~= pre);
                assert(cur.last() == self.chain_v()[i as int]);
                assert(txs_views(out@) =~= utxs_of(cur, address@));
            }
            i = i + 1;
        }
        proof {
            assert(self.chain_v().subrange(0, self.chain_v().len() as int) =~= self.chain_v());
        }
        out
    }

    /// A point-in-time summary of the chain: its height, the counts of
    /// blocks, wallets, applied and pending transactions, the clamped coin
    /// total, and whether the chain verifies.
    pub fn get_stats(&self) -> (r: Stats)
        requires
            self.wf(),
        ensures
            r.chain_height == self.chain_v().len() - 1,
            r.total_blocks == self.chain_v().len(),
            r.total_wallets == self.wallets_v().len(),
            r.total_transactions == clamp_u64(chain_txs(self.chain_v()).len() as int),
            r.pending == self.pending_v().len(),
            r.total_coins == clamp_u64(wsum(self.wallets_v())),
            r.is_valid == chain_valid(self.chain_v()),
    {
        let mut coins: u64 = 0;
        let mut i: usize = 0;
        proof {
            assert(self.wallets_v().subrange(0, 0) =~= Seq::<WalletV>::empty());
            assert(wsum(Seq::<WalletV>::empty()) == 0);
            lemma_wsum_prefix(self.wallets_v(), 0);
        }
        while i < self.wallets.len()
            invariant
                self.wallets_v().len() == self.wallets@.len(),
                0 <= i <= self.wallets@.len(),
                coins == clamp_u64(wsum_front(self.wallets_v().subrange(0, i as int))),
                wsum_front(self.wallets_v().subrange(0, i as int)) >= 0,
            decreases self.wallets@.len() - i,
        {
            let b = self.wallets[i].balance;
            proof {
                let pre = self.wallets_v().subrange(0, i as int);
                let cur = self.wallets_v().subrange(0, i + 1);
                assert(cur.drop_last() =~= pre);
                assert(cur.last() == self.wallets_v()[i as int]);
            }
            if coins > u64::MAX - b {
                coins = u64::MAX;
            } else {
                coins = coins + b;
            }
            i = i + 1;
        }
        proof {
            assert(self.wallets_v().subrange(0, self.wallets_v().len() as int)
                =~= self.wallets_v());
            lemma_wsum_prefix(self.wallets_v(), self.wallets_v().len() as int);
        }
        let mut ntx: u64 = 0;
        let mut k: usize = 0;
        proof {
            assert(self.chain_v().subrange(0, 0) =~= Seq::<BlockV>::empty());
            assert(chain_txs(Seq::<BlockV>::empty()).len() == 0);
        }
        while k < self.chain.len()
            invariant
                self.chain_v().len() == self.chain@.len(),
                0 <= k <= self.chain@.len(),
                ntx == clamp_u64(chain_txs(self.chain_v().subrange(0, k as int)).len() as int),
            decreases self.chain@.len() - k,
        {
            let c = self.chain[k].transactions.len();
            proof {
                let pre = self.chain_v().subrange(0, k as int);
                let cur = self.chain_v().subrange(0, k + 1);
                assert(cur.drop_last() =~= pre);
                assert(cur.last() == self.chain_v()[k as int]);
                assert(chain_txs(cur).len() == chain_txs(pre).len()
                    + self.chain_v()[k as int].transactions.len());
            }
            let c64 = c as u64;
            if ntx > u64::MAX - c64 {
                ntx = u64::MAX;
            } else {
                ntx = ntx + c64;
            }
            k = k + 1;
        }
        proof {
            assert(self.chain_v().subrange(0, self.chain_v().len() as int) =~= self.chain_v());
        }
        let height = (self.chain.len() - 1) as u64;
        let valid = self.verify_chain();
        Stats {
            chain_height: height,
            total_blocks: self.chain.len() as u64,
            total_wallets: self.wallets.len() as u64,
            total_transactions: ntx,
            pending: self.pending.len() as u64,
            total_coins: coins,
            is_valid: valid,
        }
    }
}

/// The balance sum accumulated from the back; used to walk wallets front
/// to back.
pub open spec fn wsum_front(ws: Seq<WalletV>) -> int
    decreases ws.len(),
{
    if ws.len() == 0 {
        0
    } else {
        wsum_front(ws.drop_last()) + ws.last().balance
    }
}

/// Front and back accumulation of balance sums agree.
pub proof fn lemma_wsum_prefix(ws: Seq<WalletV>, i: int)
    requires
        0 <= i <= ws.len(),
    ensures
        wsum_front(ws.subrange(0, i)) == wsum(ws.subrange(0, i)),
    decreases i,
{
    lemma_wsum_front_eq(ws.subrange(0, i));
}

/// The two balance-sum recursions agree on every sequence.
proof fn lemma_wsum_front_eq(ws: Seq<WalletV>)
    ensures
        wsum_front(ws) == wsum(ws),
    decreases ws.len(),
{
    if ws.len() == 0 {
    } else if ws.len() == 1 {
        assert(ws.drop_last() =~= Seq::<WalletV>::empty());
        assert(ws.drop_first() =~= Seq::<WalletV>::empty());
        assert(wsum(Seq::<WalletV>::empty()) == 0);
        assert(wsum_front(Seq::<WalletV>::empty()) == 0);
        assert(wsum(ws) == ws[0].balance + wsum(ws.drop_first()));
        assert(wsum_front(ws) == wsum_front(ws.drop_last()) + ws.last().balance);
        assert(ws[0] == ws.last());
    } else {
        lemma_wsum_front_eq(ws.drop_first());
        lemma_wsum_front_eq(ws.drop_last());
        lemma_wsum_front_eq(ws.drop_first().drop_last());
        assert(ws.drop_first().drop_last() =~= ws.drop_last().drop_first());
        assert(wsum(ws) == ws[0].balance + wsum(ws.drop_first()));
        assert(wsum(ws.drop_last()) == ws[0].balance + wsum(ws.drop_last().drop_first()));
        assert(ws.drop_first().last() == ws.last());
        assert(wsum_front(ws.drop_first()) == wsum_front(ws.drop_first().drop_last())
            + ws.drop_first().last().balance);
        assert(wsum_front(ws) == wsum_front(ws.drop_last()) + ws.last().balance);
    }
}

/// Compares two byte strings.
fn bytes_eq(a: &[u8], b: &[u8]) -> (r: bool)
    ensures
        r == (a@ == b@),
{
    if a.len() != b.len() {
        return false;
    }
    let mut i: usize = 0;
    while i < a.len()
        invariant
            a@.len() == b@.len(),
            0 <= i <= a@.len(),
            forall|j: int| 0 <= j < i ==> a@[j] == b@[j],
        decreases a@.len() - i,
    {
        if a[i] != b[i] {
            return false;
        }
        i = i + 1;
    }
    proof {
        assert(a@ =~= b@);
    }
    true
}

/// The record values of a scan result, in scan order.
pub open spec fn rec_vals(rs: Seq<(Vec<u8>, Vec<u8>)>) -> Seq<Seq<u8>> {
    Seq::new(rs.len(), |i: int| rs[i].1@)
}

/// Whether every record of a scan is the canonical encoding of a
/// well-formed block; a disk written only by this library satisfies it.
pub open spec fn all_canonical_blocks(rs: Seq<Seq<u8>>) -> bool {
    forall|i: int| 0 <= i < rs.len() ==> canonical_block(#[trigger] rs[i])
}

/// The blocks a scan of canonical records encodes, in scan order.
pub open spec fn dec_blocks(rs: Seq<Seq<u8>>) -> Seq<BlockV> {
    Seq::new(rs.len(), |i: int| dec_block(rs[i]))
}

/// Whether every record of a scan is the canonical encoding of a
/// well-formed wallet record.
pub open spec fn all_canonical_wallets(rs: Seq<Seq<u8>>) -> bool {
    forall|i: int| 0 <= i < rs.len() ==> canonical_wallet(#[trigger] rs[i])
}

/// The wallet records a scan of canonical records encodes, in scan order.
pub open spec fn dec_wallets(rs: Seq<Seq<u8>>) -> Seq<WalletV> {
    Seq::new(rs.len(), |i: int| dec_wallet(rs[i]))
}

/// The views of a block list.
pub open spec fn block_views(bs: Seq<Block>) -> Seq<BlockV> {
    Seq::new(bs.len(), |i: int| bs[i]@)
}

/// The first block of a list carrying the wanted index.
pub open spec fn first_block_with(bs: Seq<BlockV>, want: u64) -> Option<BlockV>
    decreases bs.len(),
{
    if bs.len() == 0 {
        None
    } else if bs[0].index == want {
        Some(bs[0])
    } else {
        first_block_with(bs.drop_first(), want)
    }
}

/// The genesis anchor a reload picks: the first stored block of index zero,
/// provided it is empty as a genesis block must be; else a fresh literal
/// genesis stamped `now`.
pub open spec fn pick_genesis(bs: Seq<BlockV>, now: u64) -> BlockV {
    match first_block_with(bs, 0) {
        Some(g) => if g.transactions.len() == 0 {
            g
        } else {
            fresh_genesis_v(now)
        },
        None => fresh_genesis_v(now),
    }
}

/// `k` growth steps of a reloaded chain: while the next consecutive index
/// is found among the stored blocks, the first block carrying it extends
/// the chain.
pub open spec fn chain_rec(g: BlockV, bs: Seq<BlockV>, k: nat) -> Seq<BlockV>
    decreases k,
{
    if k == 0 {
        seq![g]
    } else {
        let c = chain_rec(g, bs, (k - 1) as nat);
        if c.len() <= bs.len() && first_block_with(bs, c.len() as u64) is Some {
            c.push(first_block_with(bs, c.len() as u64).unwrap())
        } else {
            c
        }
    }
}

/// The chain a reload rebuilds from the stored blocks: anchored at the
/// picked genesis and extended with consecutive indices as far as they are
/// found.
pub open spec fn chain_build(bs: Seq<BlockV>, now: u64) -> Seq<BlockV> {
    chain_rec(pick_genesis(bs, now), bs, bs.len())
}

/// The wallets a reload keeps: the records whose stored public key matches
/// the key derived from their address, first record per address.
pub open spec fn sel_wallets(ws: Seq<WalletV>) -> Seq<WalletV>
    decreases ws.len(),
{
    if ws.len() == 0 {
        Seq::<WalletV>::empty()
    } else {
        let pre = sel_wallets(ws.drop_last());
        let w = ws.last();
        if w.public_key == ed25519_pk_of(seed_of(w.address)) && wfind(pre, w.address) is None {
            pre.push(w)
        } else {
            pre
        }
    }
}

/// If no block among the first `i` carries the wanted index, the search
/// continues past them.
proof fn lemma_first_block_skip(bs: Seq<BlockV>, want: u64, i: int)
    requires
        0 <= i <= bs.len(),
        forall|j: int| 0 <= j < i ==> (#[trigger] bs[j]).index != want,
    ensures
        first_block_with(bs, want) == first_block_with(bs.skip(i), want),
    decreases i,
{
    if i == 0 {
        assert(bs.skip(0) =~= bs);
    } else {
        lemma_first_block_skip(bs, want, i - 1);
        assert(bs.skip(i - 1)[0] == bs[i - 1]);
        assert(bs.skip(i - 1).drop_first() =~= bs.skip(i));
    }
}

/// If the block at `idx` carries the wanted index and none earlier does,
/// the search reads it.
proof fn lemma_first_block_at(bs: Seq<BlockV>, want: u64, idx: int)
    requires
        0 <= idx < bs.len(),
        bs[idx].index == want,
        forall|j: int| 0 <= j < idx ==> (#[trigger] bs[j]).index != want,
    ensures
        first_block_with(bs, want) == Some(bs[idx]),
{
    lemma_first_block_skip(bs, want, idx);
    assert(bs.skip(idx)[0] == bs[idx]);
}

/// If no block carries the wanted index, the search fails.
proof fn lemma_first_block_none(bs: Seq<BlockV>, want: u64)
    requires
        forall|j: int| 0 <= j < bs.len() ==> (#[trigger] bs[j]).index != want,
    ensures
        first_block_with(bs, want) is None,
{
    lemma_first_block_skip(bs, want, bs.len() as int);
    assert(bs.skip(bs.len() as int) =~= Seq::<BlockV>::empty());
}

impl CommunityBlockchain {
    /// Finds the first parsed block carrying the wanted index.
    fn find_block(blocks: &Vec<Block>, want: u64) -> (r: Option<usize>)
        ensures
            match r {
                Some(i) => i < blocks@.len() && blocks@[i as int]@.index == want,
                None => true,
            },
            first_block_with(block_views(blocks@), want) == match r {
                Some(i) => Some(blocks@[i as int]@),
                None => None::<BlockV>,
            },
    {
        let ghost bvs = block_views(blocks@);
        let mut i: usize = 0;
        while i < blocks.len()
            invariant
                bvs == block_views(blocks@),
                bvs.len() == blocks@.len(),
                0 <= i <= bvs.len(),
                forall|j: int| 0 <= j < i ==> (#[trigger] bvs[j]).index != want,
            decreases bvs.len() - i,
        {
            if blocks[i].index == want {
                proof {
                    lemma_first_block_at(bvs, want, i as int);
                }
                return Some(i);
            }
            i = i + 1;
        }
        proof {
            lemma_first_block_none(bvs, want);
        }
        None
    }

    /// Rebuilds an engine from what two store scans returned, the block
    /// records and the wallet records: keeps every record that parses,
    /// anchors the chain at the stored genesis (or a fresh one stamped
    /// `now`), extends it while consecutive indices are found, keeps the
    /// first well-keyed wallet record per address, and rebuilds the nonce
    /// tables from the chain. Where every record is canonical — as on a
    /// disk this library wrote — the chain and the wallets are pinned
    /// exactly to what the records encode.
    #[verifier::rlimit(100)]
    pub fn rebuild(
        store: crate::store::Store,
        now: u64,
        raw_blocks: &Vec<(Vec<u8>, Vec<u8>)>,
        raw_wallets: &Vec<(Vec<u8>, Vec<u8>)>,
    ) -> (bc: CommunityBlockchain)
        ensures
            bc.wf(),
            bc.pending_v().len() == 0,
            bc.chain_v()[0].transactions.len() == 0,
            bc.applied_v() =~= applied_after(
                Seq::<(Seq<char>, u64)>::empty(),
                chain_txs(bc.chain_v()),
            ),
            bc.nonces_v() =~= bc.applied_v(),
            bc.supply_v() == wsum(bc.wallets_v()) + chain_fees(bc.chain_v()),
            all_canonical_blocks(rec_vals(raw_blocks@)) ==> bc.chain_v() == chain_build(
                dec_blocks(rec_vals(raw_blocks@)),
                now,
            ),
            all_canonical_wallets(rec_vals(raw_wallets@)) ==> bc.wallets_v() == sel_wallets(
                dec_wallets(rec_vals(raw_wallets@)),
            ),
    {
        let ghost brecs = rec_vals(raw_blocks@);
        let ghost wrecs = rec_vals(raw_wallets@);
        // parse the stored blocks
        let mut blocks: Vec<Block> = Vec::new();
        let mut i: usize = 0;
        proof {
            assert(brecs.subrange(0, 0) =~= Seq::<Seq<u8>>::empty());
            assert(block_views(blocks@) =~= dec_blocks(brecs.subrange(0, 0)));
        }
        while i < raw_blocks.len()
            invariant
                brecs == rec_vals(raw_blocks@),
                brecs.len() == raw_blocks@.len(),
                0 <= i <= raw_blocks@.len(),
                forall|k: int| 0 <= k < blocks@.len() ==> block_wf(#[trigger] blocks@[k]@),
                all_canonical_blocks(brecs.subrange(0, i as int)) ==> block_views(blocks@)
                    =~= dec_blocks(brecs.subrange(0, i as int)),
            decreases raw_blocks@.len() - i,
        {
            let ghost prevb = blocks@;
            let pr = parse_block(&raw_blocks[i].1);
            match pr {
                Some(b) => {
                    blocks.push(b);
                },
                None => {},
            }
            proof {
                let pre = brecs.subrange(0, i as int);
                let cur = brecs.subrange(0, i + 1);
                if all_canonical_blocks(cur) {
                    assert(all_canonical_blocks(pre)) by {
                        assert(forall|k: int| 0 <= k < pre.len() ==> pre[k] == cur[k]);
                    }
                    assert(canonical_block(brecs[i as int])) by {
                        assert(cur[i as int] == brecs[i as int]);
                    }
                    let bb = choose|b: BlockV| block_wf(b) && crate::codec::enc_block(b) == brecs[i as int];
                    assert(raw_blocks@[i as int].1@ == crate::codec::enc_block(bb));
                    assert(pr is Some && pr.unwrap()@ == bb);
                    assert(bb == dec_block(brecs[i as int]));
                    assert(block_views(blocks@) =~= block_views(prevb).push(bb));
                    assert(dec_blocks(cur).drop_last() =~= dec_blocks(pre));
                    assert(dec_blocks(cur) =~= dec_blocks(pre).push(dec_block(brecs[i as int])));
                    assert(block_views(blocks@) =~= dec_blocks(cur));
                }
            }
            i = i + 1;
        }
        // parse the stored wallets, keeping only well-keyed, fresh ones
        let mut wallets: Vec<Wallet> = Vec::new();
        let mut j: usize = 0;
        proof {
            assert(wrecs.subrange(0, 0) =~= Seq::<Seq<u8>>::empty());
            assert(dec_wallets(wrecs.subrange(0, 0)) =~= Seq::<WalletV>::empty());
            assert(wv(wallets@) =~= sel_wallets(dec_wallets(wrecs.subrange(0, 0))));
        }
        while j < raw_wallets.len()
            invariant
                wrecs == rec_vals(raw_wallets@),
                wrecs.len() == raw_wallets@.len(),
                0 <= j <= raw_wallets@.len(),
                wdistinct(wv(wallets@)),
                forall|k: int|
                    0 <= k < wv(wallets@).len() ==> wallet_wf(#[trigger] wv(wallets@)[k]),
                all_canonical_wallets(wrecs.subrange(0, j as int)) ==> wv(wallets@) =~= sel_wallets(
                    dec_wallets(wrecs.subrange(0, j as int)),
                ),
            decreases raw_wallets@.len() - j,
        {
            let ghost prevw = wv(wallets@);
            let ghost wpre = wrecs.subrange(0, j as int);
            let ghost wcur = wrecs.subrange(0, j + 1);
            proof {
                if all_canonical_wallets(wcur) {
                    assert(all_canonical_wallets(wpre)) by {
                        assert(forall|k: int| 0 <= k < wpre.len() ==> wpre[k] == wcur[k]);
                    }
                    assert(canonical_wallet(wrecs[j as int])) by {
                        assert(wcur[j as int] == wrecs[j as int]);
                    }
                    assert(dec_wallets(wcur).drop_last() =~= dec_wallets(wpre));
                    assert(dec_wallets(wcur) =~= dec_wallets(wpre).push(
                        dec_wallet(wrecs[j as int]),
                    ));
                }
            }
            let pw = parse_wallet(&raw_wallets[j].1);
            match pw {
                Some(w) => {
                    let astr = w.address.as_str();
                    proof {
                        assert(wallet_rec_wf(w@));
                        lemma_addr_chars_ascii(w@.address);
                        lemma_ascii_str_bytes(astr);
                        if all_canonical_wallets(wcur) {
                            let ww = choose|x: WalletV|
                                wallet_rec_wf(x) && crate::codec::enc_wallet(x) == wrecs[j as int];
                            assert(raw_wallets@[j as int].1@ == crate::codec::enc_wallet(ww));
                            assert(w@ == ww);
                            assert(w@ == dec_wallet(wrecs[j as int]));
                        }
                    }
                    let seed = sha256(astr.as_bytes());
                    let pk = ed25519_derive_pk(seed.as_slice());
                    if bytes_eq(pk.as_slice(), w.public_key.as_slice()) {
                        match wallet_idx(&wallets, &w.address) {
                            Some(_) => {
                                proof {
                                    if all_canonical_wallets(wcur) {
                                        assert(wv(wallets@) =~= sel_wallets(dec_wallets(wcur)));
                                    }
                                }
                            },
                            None => {
                                proof {
                                    lemma_wdistinct_push(wv(wallets@), w@);
                                    assert(wallet_wf(w@));
                                }
                                let ghost gw = w@;
                                wallets.push(w);
                                proof {
                                    assert(wv(wallets@) =~= prevw.push(gw));
                                    if all_canonical_wallets(wcur) {
                                        assert(wv(wallets@) =~= sel_wallets(dec_wallets(wcur)));
                                    }
                                }
                            },
                        }
                    } else {
                        proof {
                            if all_canonical_wallets(wcur) {
                                assert(wv(wallets@) =~= sel_wallets(dec_wallets(wcur)));
                            }
                        }
                    }
                },
                None => {
                    proof {
                        if all_canonical_wallets(wcur) {
                            let ww = choose|x: WalletV|
                                wallet_rec_wf(x) && crate::codec::enc_wallet(x) == wrecs[j as int];
                            assert(raw_wallets@[j as int].1@ == crate::codec::enc_wallet(ww));
                            assert(false);
                        }
                    }
                },
            }
            j = j + 1;
        }
        // anchor the chain: the stored genesis, or a fresh one
        let ghost bvs = block_views(blocks@);
        let gres = Self::find_block(&blocks, 0);
        let genesis = match gres {
            Some(g) => {
                let cand = blocks[g].clone();
                if cand.transactions.len() == 0 {
                    cand
                } else {
                    Self::fresh_genesis(now)
                }
            },
            None => Self::fresh_genesis(now),
        };
        proof {
            assert(genesis@.index == 0);
            assert(block_wf(genesis@));
            assert(genesis@.transactions.len() == 0);
            assert(genesis@ == pick_genesis(bvs, now));
        }
        let ghost g0 = genesis@;
        let mut chain: Vec<Block> = Vec::new();
        chain.push(genesis);
        let mut step: usize = 0;
        proof {
            assert(block_views(chain@) =~= chain_rec(g0, bvs, 0));
        }
        while step < blocks.len()
            invariant
                bvs == block_views(blocks@),
                bvs.len() == blocks@.len(),
                forall|k: int| 0 <= k < blocks@.len() ==> block_wf(#[trigger] blocks@[k]@),
                0 <= step <= blocks@.len(),
                chain@.len() >= 1,
                chain@.len() <= step + 1,
                chain@[0]@.transactions.len() == 0,
                forall|k: int|
                    0 <= k < chain@.len() ==> (#[trigger] chain@[k]@).index == k && block_wf(
                        chain@[k]@,
                    ),
                block_views(chain@) =~= chain_rec(g0, bvs, step as nat),
            decreases blocks@.len() - step,
        {
            let ghost cprev = chain_rec(g0, bvs, step as nat);
            proof {
                assert(cprev.len() == chain@.len());
            }
            if chain.len() <= blocks.len() {
                let want = chain.len() as u64;
                match Self::find_block(&blocks, want) {
                    Some(bi) => {
                        let nb = blocks[bi].clone();
                        let ghost prevc = chain@;
                        chain.push(nb);
                        proof {
                            assert(forall|k: int|
                                0 <= k < prevc.len() ==> chain@[k] == prevc[k]);
                            assert(chain@.last()@.index == want);
                            assert(first_block_with(bvs, cprev.len() as u64) == Some(
                                blocks@[bi as int]@,
                            ));
                            assert(chain_rec(g0, bvs, (step + 1) as nat) == cprev.push(
                                blocks@[bi as int]@,
                            ));
                            assert(block_views(chain@) =~= cprev.push(blocks@[bi as int]@));
                        }
                    },
                    None => {
                        proof {
                            assert(first_block_with(bvs, cprev.len() as u64) is None);
                            assert(chain_rec(g0, bvs, (step + 1) as nat) == cprev);
                        }
                    },
                }
            } else {
                proof {
                    assert(cprev.len() > bvs.len());
                    assert(chain_rec(g0, bvs, (step + 1) as nat) == cprev);
                }
            }
            step = step + 1;
        }
        // rebuild the nonce tables from the chain
        let ghost chv0 = Seq::new(chain@.len(), |k: int| chain@[k]@);
        let mut applied = Table::new();
        let mut ci: usize = 1;
        proof {
            assert(chv0.subrange(0, 1).drop_last() =~= Seq::<BlockV>::empty());
            assert(chv0.subrange(0, 1).last() == chv0[0]);
            assert(chv0[0].transactions.len() == 0);
            assert(chv0[0].transactions =~= Seq::<TxV>::empty());
            assert(chain_txs(Seq::<BlockV>::empty()) =~= Seq::<TxV>::empty());
            assert(chain_txs(chv0.subrange(0, 1)) =~= Seq::<TxV>::empty());
            assert(applied.pairs() =~= Seq::<(Seq<char>, u64)>::empty());
            assert(applied_after(
                Seq::<(Seq<char>, u64)>::empty(),
                chain_txs(chv0.subrange(0, 1)),
            ) =~= Seq::<(Seq<char>, u64)>::empty());
        }
        while ci < chain.len()
            invariant
                chv0 == Seq::new(chain@.len(), |k: int| chain@[k]@),
                chv0.len() == chain@.len(),
                forall|k: int|
                    0 <= k < chain@.len() ==> (#[trigger] chain@[k]@).index == k && block_wf(
                        chain@[k]@,
                    ),
                1 <= ci <= chain@.len() || (chain@.len() <= 1 && ci == 1),
                chain@.len() >= 1,
                tdistinct(applied.pairs()),
                tvalid(applied.pairs()),
                ci <= chain@.len() ==> applied.pairs() =~= applied_after(
                    Seq::<(Seq<char>, u64)>::empty(),
                    chain_txs(chv0.subrange(0, ci as int)),
                ),
            decreases chain@.len() - ci,
        {
            let blk = &chain[ci];
            let ghost apb = applied.pairs();
            let ghost bts = chv0[ci as int].transactions;
            let mut ti: usize = 0;
            proof {
                assert(bts.subrange(0, 0) =~= Seq::<TxV>::empty());
                assert(applied_after(apb, bts.subrange(0, 0)) == apb);
            }
            while ti < blk.transactions.len()
                invariant
                    block_wf(blk@),
                    bts == blk@.transactions,
                    blk@.transactions.len() == blk.transactions@.len(),
                    0 <= ti <= blk.transactions@.len(),
                    tdistinct(applied.pairs()),
                    tvalid(applied.pairs()),
                    applied.pairs() =~= applied_after(apb, bts.subrange(0, ti as int)),
                decreases blk.transactions@.len() - ti,
            {
                let t = &blk.transactions[ti];
                proof {
                    assert(blk@.transactions[ti as int] == blk.transactions@[ti as int]@);
                    assert(tx_wf(blk@.transactions[ti as int]));
                    lemma_tset_distinct(applied.pairs(), t@.from, t.nonce);
                    lemma_tset_distinct_free(applied.pairs(), t@.from, t.nonce);
                    let cur = bts.subrange(0, ti + 1);
                    assert(cur.drop_last() =~= bts.subrange(0, ti as int));
                    assert(cur =~= bts.subrange(0, ti as int).push(bts[ti as int]));
                    lemma_applied_after_snoc(apb, bts.subrange(0, ti as int), bts[ti as int]);
                }
                applied.set(&t.from, t.nonce);
                ti = ti + 1;
            }
            proof {
                assert(bts.subrange(0, bts.len() as int) =~= bts);
                let pre = chv0.subrange(0, ci as int);
                let cur = chv0.subrange(0, ci + 1);
                assert(cur.drop_last() =~= pre);
                assert(cur.last() == chv0[ci as int]);
                assert(chain_txs(cur) =~= chain_txs(pre) + bts);
                lemma_applied_after_concat(
                    Seq::<(Seq<char>, u64)>::empty(),
                    chain_txs(pre),
                    bts,
                );
            }
            ci = ci + 1;
        }
        proof {
            assert(chv0.subrange(0, chv0.len() as int) =~= chv0);
            if chain@.len() == 1 {
                assert(chain_txs(chv0) =~= Seq::<TxV>::empty());
                assert(applied.pairs() =~= applied_after(
                    Seq::<(Seq<char>, u64)>::empty(),
                    chain_txs(chv0),
                ));
            }
        }
        let nonces = applied.duplicate();
        let ghost chv = chv0;
        let ghost wsv = wv(wallets@);
        let bc = CommunityBlockchain {
            chain,
            wallets,
            nonces,
            applied,
            tx_index: Vec::new(),
            pending: Vec::new(),
            store,
            supply: Ghost(wsum(wsv) + chain_fees(chv)),
        };
        proof {
            assert(bc.chain_v() =~= chv);
            assert(bc.wallets_v() =~= wsv);
            assert(bc.pending_v() =~= Seq::<TxV>::empty());
            assert(bc.chain_v() =~= block_views(bc.chain@));
            if all_canonical_blocks(brecs) {
                assert(brecs.subrange(0, brecs.len() as int) =~= brecs);
                assert(bvs =~= dec_blocks(brecs));
                assert(bc.chain_v() =~= chain_rec(g0, bvs, bvs.len()));
                assert(g0 == pick_genesis(dec_blocks(brecs), now));
                assert(bc.chain_v() =~= chain_build(dec_blocks(brecs), now));
                assert(bc.chain_v() == chain_build(dec_blocks(brecs), now));
            }
            if all_canonical_wallets(wrecs) {
                assert(wrecs.subrange(0, wrecs.len() as int) =~= wrecs);
                assert(bc.wallets_v() =~= sel_wallets(dec_wallets(wrecs)));
                assert(bc.wallets_v() == sel_wallets(dec_wallets(wrecs)));
            }
        }
        bc
    }

    /// Reopens an engine from the store under `path`: scans the block and
    /// wallet records and hands whatever the scans returned to `rebuild`,
    /// whose contract pins the result for every scan outcome. The mempool
    /// starts empty.
    pub fn load(path: &str) -> (r: Result<CommunityBlockchain, ChainError>)
        ensures
            match r {
                Ok(bc) => {
                    &&& bc.wf()
                    &&& bc.pending_v().len() == 0
                    &&& bc.chain_v()[0].transactions.len() == 0
                    &&& bc.applied_v() =~= applied_after(
                        Seq::<(Seq<char>, u64)>::empty(),
                        chain_txs(bc.chain_v()),
                    )
                    &&& bc.nonces_v() =~= bc.applied_v()
                    &&& bc.supply_v() == wsum(bc.wallets_v()) + chain_fees(bc.chain_v())
                },
                Err(e) => e == ChainError::PersistenceError,
            },
    {
        let store = match crate::store::Store::open(path) {
            Ok(st) => st,
            Err(_) => {
                return Err(ChainError::PersistenceError);
            },
        };
        let raw_blocks = store.scan_prefix("block:".as_bytes());
        let raw_wallets = store.scan_prefix("wallet:".as_bytes());
        let now = current_timestamp();
        Ok(Self::rebuild(store, now, &raw_blocks, &raw_wallets))
    }
}

} // verus!

