//! The data model: transactions, blocks, wallets and their mathematical
//! views, together with the hashing rules that seal a block.

use vstd::prelude::*;
use crate::text::{
    addr_char, valid_addr, char_bytes, fee_of, dec_digits, hex_of, lemma_addr_chars_ascii,
    lemma_ascii_str_bytes, bytes_to_hex,
};
use crate::crypto::{sha256_of, ed25519_pk_of, base64_char, sha256};

verus! {

use vstd::string::StringExecFns;
use vstd::string::StringSliceAdditionalSpecFns;
use vstd::bytes::spec_u64_to_le_bytes;
use vstd::bytes::u64_to_le_bytes;
use vstd::slice::slice_to_vec;

/// A signed value transfer.
pub struct Transaction {
    pub from: String,
    pub to: String,
    pub amount: u64,
    pub fee: u64,
    pub timestamp: u64,
    pub tx_id: String,
    pub signature: String,
    pub nonce: u64,
}

/// The mathematical view of a transaction.
#[verifier::ext_equal]
pub struct TxV {
    pub from: Seq<char>,
    pub to: Seq<char>,
    pub amount: u64,
    pub fee: u64,
    pub timestamp: u64,
    pub tx_id: Seq<char>,
    pub signature: Seq<char>,
    pub nonce: u64,
}

impl View for Transaction {
    type V = TxV;

    open spec fn view(&self) -> TxV {
        TxV {
            from: self.from@,
            to: self.to@,
            amount: self.amount,
            fee: self.fee,
            timestamp: self.timestamp,
            tx_id: self.tx_id@,
            signature: self.signature@,
            nonce: self.nonce,
        }
    }
}

/// A sealed (or genesis) block.
pub struct Block {
    pub index: u64,
    pub timestamp: u64,
    pub transactions: Vec<Transaction>,
    pub prev_hash: String,
    pub hash: String,
    pub proposer: String,
    pub state_root: String,
}

/// The mathematical view of a block.
#[verifier::ext_equal]
pub struct BlockV {
    pub index: u64,
    pub timestamp: u64,
    pub transactions: Seq<TxV>,
    pub prev_hash: Seq<char>,
    pub hash: Seq<char>,
    pub proposer: Seq<char>,
    pub state_root: Seq<char>,
}

impl View for Block {
    type V = BlockV;

    open spec fn view(&self) -> BlockV {
        BlockV {
            index: self.index,
            timestamp: self.timestamp,
            transactions: Seq::new(
                self.transactions@.len(),
                |i: int| self.transactions@[i]@,
            ),
            prev_hash: self.prev_hash@,
            hash: self.hash@,
            proposer: self.proposer@,
            state_root: self.state_root@,
        }
    }
}

/// One account: the address owns the balance, and the signing key is
/// re-derivable from the address alone.
pub struct Wallet {
    pub address: String,
    pub public_key: Vec<u8>,
    pub balance: u64,
    pub tx_count: u64,
    pub created_at: u64,
    pub last_updated: u64,
}

/// The mathematical view of a wallet.
#[verifier::ext_equal]
pub struct WalletV {
    pub address: Seq<char>,
    pub public_key: Seq<u8>,
    pub balance: u64,
    pub tx_count: u64,
    pub created_at: u64,
    pub last_updated: u64,
}

impl View for Wallet {
    type V = WalletV;

    open spec fn view(&self) -> WalletV {
        WalletV {
            address: self.address@,
            public_key: self.public_key@,
            balance: self.balance,
            tx_count: self.tx_count,
            created_at: self.created_at,
            last_updated: self.last_updated,
        }
    }
}

/// A back-reference from an address to a transaction applied on the chain.
pub struct TransactionIndex {
    pub tx_id: String,
    pub block_index: u64,
    pub tx_index_in_block: usize,
}

/// The mathematical view of a transaction back-reference.
#[verifier::ext_equal]
pub struct TxIndexV {
    pub tx_id: Seq<char>,
    pub block_index: u64,
    pub tx_index_in_block: usize,
}

impl View for TransactionIndex {
    type V = TxIndexV;

    open spec fn view(&self) -> TxIndexV {
        TxIndexV {
            tx_id: self.tx_id@,
            block_index: self.block_index,
            tx_index_in_block: self.tx_index_in_block,
        }
    }
}

/// A point-in-time summary of the chain.
pub struct Stats {
    pub chain_height: u64,
    pub total_blocks: u64,
    pub total_wallets: u64,
    pub total_transactions: u64,
    pub pending: u64,
    pub total_coins: u64,
    pub is_valid: bool,
}

/// Text whose characters all come from the address alphabet; such text
/// embeds into the persisted records without escaping.
pub open spec fn safe_text(s: Seq<char>) -> bool {
    forall|i: int| 0 <= i < s.len() ==> addr_char(#[trigger] s[i])
}

/// Text whose characters all come from the base64 alphabet.
pub open spec fn b64_text(s: Seq<char>) -> bool {
    forall|i: int| 0 <= i < s.len() ==> base64_char(#[trigger] s[i])
}

/// A well-formed transaction, as the data model demands: lawful addresses,
/// an amount within the cap, the mandated fee, a positive nonce, and
/// printable identifier and signature text.
pub open spec fn tx_wf(t: TxV) -> bool {
    &&& valid_addr(t.from)
    &&& valid_addr(t.to)
    &&& 0 < t.amount <= crate::text::AMOUNT_CAP
    &&& t.fee == fee_of(t.amount)
    &&& t.nonce >= 1
    &&& 1 <= t.tx_id.len()
    &&& safe_text(t.tx_id)
    &&& b64_text(t.signature)
}

/// A well-formed block: a lawful proposer and digest strings, and
/// well-formed transactions throughout.
pub open spec fn block_wf(b: BlockV) -> bool {
    &&& valid_addr(b.proposer)
    &&& valid_addr(b.prev_hash)
    &&& valid_addr(b.hash)
    &&& valid_addr(b.state_root)
    &&& forall|i: int| 0 <= i < b.transactions.len() ==> tx_wf(#[trigger] b.transactions[i])
}

/// The seed of an address's signing key: the SHA-256 digest of the address
/// text.
pub open spec fn seed_of(addr: Seq<char>) -> Seq<u8> {
    sha256_of(char_bytes(addr))
}

/// A structurally well-formed wallet record, as persisted.
pub open spec fn wallet_rec_wf(w: WalletV) -> bool {
    &&& valid_addr(w.address)
    &&& w.public_key.len() == 32
    &&& w.created_at <= w.last_updated
}

/// A well-formed wallet: a lawful record whose public key is the verifying
/// key derived from its address.
pub open spec fn wallet_wf(w: WalletV) -> bool {
    &&& wallet_rec_wf(w)
    &&& w.public_key == ed25519_pk_of(seed_of(w.address))
}

/// The transaction identifier text: sender, recipient, nonce and timestamp,
/// joined by hyphens.
pub open spec fn tx_id_chars(from: Seq<char>, to: Seq<char>, nonce: u64, ts: u64) -> Seq<char> {
    from + seq!['-'] + to + seq!['-'] + dec_digits(nonce as int) + seq!['-'] + dec_digits(
        ts as int,
    )
}

/// Builds the transaction identifier.
pub fn make_tx_id(from: &str, to: &str, nonce: u64, ts: u64) -> (r: String)
    ensures
        r@ == tx_id_chars(from@, to@, nonce, ts),
{
    let mut s = String::new();
    s.append(from);
    proof { reveal_strlit("-"); }
    s.append("-");
    s.append(to);
    s.append("-");
    let n = crate::text::u64_to_dec(nonce);
    s.append(n.as_str());
    s.append("-");
    let t = crate::text::u64_to_dec(ts);
    s.append(t.as_str());
    proof {
        assert(s@ =~= tx_id_chars(from@, to@, nonce, ts));
    }
    s
}

/// The concatenated identifier bytes of a block's transactions.
pub open spec fn tx_ids_bytes(txs: Seq<TxV>) -> Seq<u8>
    decreases txs.len(),
{
    if txs.len() == 0 {
        Seq::<u8>::empty()
    } else {
        tx_ids_bytes(txs.drop_last()) + char_bytes(txs.last().tx_id)
    }
}

/// The bytes a block's hash is computed over: index and timestamp in
/// little-endian, the previous hash and state root texts, and the
/// transaction identifiers in order.
pub open spec fn hash_input(
    index: u64,
    timestamp: u64,
    prev_hash: Seq<char>,
    state_root: Seq<char>,
    txs: Seq<TxV>,
) -> Seq<u8> {
    spec_u64_to_le_bytes(index) + spec_u64_to_le_bytes(timestamp) + char_bytes(prev_hash)
        + char_bytes(state_root) + tx_ids_bytes(txs)
}

/// The sealed hash text of a block: the hexadecimal SHA-256 digest of its
/// hash input.
pub open spec fn block_hash_chars(
    index: u64,
    timestamp: u64,
    prev_hash: Seq<char>,
    state_root: Seq<char>,
    txs: Seq<TxV>,
) -> Seq<char> {
    hex_of(sha256_of(hash_input(index, timestamp, prev_hash, state_root, txs)))
}

/// Appends the UTF-8 bytes of an ASCII string to a byte vector.
fn push_str_bytes(out: &mut Vec<u8>, s: &str)
    requires
        s.is_ascii(),
    ensures
        final(out)@ == old(out)@ + char_bytes(s@),
{
    let bs = s.as_bytes();
    proof {
        lemma_ascii_str_bytes(s);
    }
    let mut v = slice_to_vec(bs);
    out.append(&mut v);
}

/// Computes the sealed hash of a block from its parts.
pub fn compute_block_hash(
    index: u64,
    timestamp: u64,
    prev_hash: &str,
    state_root: &str,
    txs: &Vec<Transaction>,
) -> (r: String)
    requires
        prev_hash.is_ascii(),
        state_root.is_ascii(),
        forall|i: int|
            0 <= i < txs@.len() ==> safe_text(#[trigger] txs@[i]@.tx_id),
    ensures
        r@ == block_hash_chars(
            index,
            timestamp,
            prev_hash@,
            state_root@,
            Seq::new(txs@.len(), |i: int| txs@[i]@),
        ),
        r@.len() == 64,
        safe_text(r@),
{
    let ghost txsv = Seq::new(txs@.len(), |i: int| txs@[i]@);
    let mut input: Vec<u8> = Vec::new();
    let mut ib = u64_to_le_bytes(index);
    input.append(&mut ib);
    let mut tb = u64_to_le_bytes(timestamp);
    input.append(&mut tb);
    push_str_bytes(&mut input, prev_hash);
    push_str_bytes(&mut input, state_root);
    let mut i: usize = 0;
    while i < txs.len()
        invariant
            0 <= i <= txs@.len(),
            txsv == Seq::new(txs@.len(), |k: int| txs@[k]@),
            forall|k: int| 0 <= k < txs@.len() ==> safe_text(#[trigger] txs@[k]@.tx_id),
            input@ == spec_u64_to_le_bytes(index) + spec_u64_to_le_bytes(timestamp) + char_bytes(
                prev_hash@,
            ) + char_bytes(state_root@) + tx_ids_bytes(txsv.subrange(0, i as int)),
        decreases txs@.len() - i,
    {
        let s = txs[i].tx_id.as_str();
        proof {
            assert(safe_text(txs@[i as int]@.tx_id));
            assert(s@ == txs@[i as int]@.tx_id);
            lemma_addr_chars_ascii(s@);
        }
        push_str_bytes(&mut input, s);
        proof {
            let pre = txsv.subrange(0, i as int);
            let cur = txsv.subrange(0, i + 1);
            assert(cur.drop_last() =~= pre);
            assert(cur.last() == txsv[i as int]);
            assert(input@ =~= spec_u64_to_le_bytes(index) + spec_u64_to_le_bytes(timestamp)
                + char_bytes(prev_hash@) + char_bytes(state_root@) + tx_ids_bytes(cur));
        }
        i = i + 1;
    }
    proof {
        assert(txsv.subrange(0, txsv.len() as int) =~= txsv);
    }
    let digest = sha256(input.as_slice());
    let out = bytes_to_hex(digest.as_slice());
    proof {
        crate::text::lemma_hex_chars(digest@);
    }
    out
}

/// The bytes one balance pair contributes to the state root: the address
/// text, then the balance in little-endian.
pub open spec fn pair_bytes(addr: Seq<char>, bal: u64) -> Seq<u8> {
    char_bytes(addr) + spec_u64_to_le_bytes(bal)
}

/// The byte string the state root digests: the balance pairs in order.
pub open spec fn pairs_bytes(ps: Seq<(Seq<char>, u64)>) -> Seq<u8>
    decreases ps.len(),
{
    if ps.len() == 0 {
        Seq::<u8>::empty()
    } else {
        pairs_bytes(ps.drop_last()) + pair_bytes(ps.last().0, ps.last().1)
    }
}

/// The state root text over a sequence of balance pairs.
pub open spec fn state_root_chars(ps: Seq<(Seq<char>, u64)>) -> Seq<char> {
    hex_of(sha256_of(pairs_bytes(ps)))
}

impl Wallet {
    /// Makes the wallet of an address, stamped with the present time: the
    /// balance as given and the public key derived from the address.
    pub fn new(address: String, balance: u64) -> (r: Wallet)
        requires
            valid_addr(address@),
        ensures
            r@.address == address@,
            r@.balance == balance,
            r@.tx_count == 0,
            r@.created_at == r@.last_updated,
            wallet_wf(r@),
    {
        let now = crate::clock::current_timestamp();
        let astr = address.as_str();
        proof {
            lemma_addr_chars_ascii(address@);
            lemma_ascii_str_bytes(astr);
        }
        let seed = sha256(astr.as_bytes());
        let pk = crate::crypto::ed25519_derive_pk(seed.as_slice());
        Wallet {
            address,
            public_key: pk,
            balance,
            tx_count: 0,
            created_at: now,
            last_updated: now,
        }
    }
}

impl Clone for Transaction {
    /// Clones a transaction; the copy has the same view.
    fn clone(&self) -> (r: Self)
        ensures
            r@ == self@,
    {
        Transaction {
            from: self.from.clone(),
            to: self.to.clone(),
            amount: self.amount,
            fee: self.fee,
            timestamp: self.timestamp,
            tx_id: self.tx_id.clone(),
            signature: self.signature.clone(),
            nonce: self.nonce,
        }
    }
}

/// Clones a list of transactions; the copy has the same view, element by
/// element.
pub fn clone_txs(txs: &Vec<Transaction>) -> (r: Vec<Transaction>)
    ensures
        r@.len() == txs@.len(),
        forall|i: int| 0 <= i < txs@.len() ==> #[trigger] r@[i]@ == txs@[i]@,
{
    let mut out: Vec<Transaction> = Vec::new();
    let mut i: usize = 0;
    while i < txs.len()
        invariant
            0 <= i <= txs@.len(),
            out@.len() == i,
            forall|k: int| 0 <= k < i ==> #[trigger] out@[k]@ == txs@[k]@,
        decreases txs@.len() - i,
    {
        out.push(txs[i].clone());
        i = i + 1;
    }
    out
}

impl Clone for Block {
    /// Clones a block; the copy has the same view.
    fn clone(&self) -> (r: Self)
        ensures
            r@ == self@,
    {
        let txs = clone_txs(&self.transactions);
        let r = Block {
            index: self.index,
            timestamp: self.timestamp,
            transactions: txs,
            prev_hash: self.prev_hash.clone(),
            hash: self.hash.clone(),
            proposer: self.proposer.clone(),
            state_root: self.state_root.clone(),
        };
        proof {
            assert(r@.transactions =~= self@.transactions);
        }
        r
    }
}

impl Clone for Wallet {
    /// Clones a wallet; the copy has the same view.
    fn clone(&self) -> (r: Self)
        ensures
            r@ == self@,
    {
        Wallet {
            address: self.address.clone(),
            public_key: vstd::slice::slice_to_vec(self.public_key.as_slice()),
            balance: self.balance,
            tx_count: self.tx_count,
            created_at: self.created_at,
            last_updated: self.last_updated,
        }
    }
}

impl Clone for TransactionIndex {
    /// Clones a back-reference; the copy has the same view.
    fn clone(&self) -> (r: Self)
        ensures
            r@ == self@,
    {
        TransactionIndex {
            tx_id: self.tx_id.clone(),
            block_index: self.block_index,
            tx_index_in_block: self.tx_index_in_block,
        }
    }
}

/// Base64 characters are ASCII.
pub proof fn lemma_b64_chars_ascii(s: Seq<char>)
    requires
        forall|i: int| 0 <= i < s.len() ==> base64_char(#[trigger] s[i]),
    ensures
        vstd::utf8::is_ascii_chars(s),
{
}

/// Returns whether every character of `s` comes from the address alphabet.
pub fn text_safe(s: &str) -> (r: bool)
    ensures
        r == safe_text(s@),
{
    broadcast use vstd::string::group_string_axioms;

    if !s.is_ascii() {
        proof {
            if safe_text(s@) {
                lemma_addr_chars_ascii(s@);
            }
        }
        return false;
    }
    let n = s.unicode_len();
    let mut i: usize = 0;
    while i < n
        invariant
            s.is_ascii(),
            n == s@.len(),
            0 <= i <= n,
            forall|j: int| 0 <= j < i ==> addr_char(#[trigger] s@[j]),
        decreases n - i,
    {
        let b = s.get_ascii(i);
        let ok = (97u8 <= b && b <= 122u8) || (65u8 <= b && b <= 90u8) || (48u8 <= b && b <= 57u8)
            || b == 95u8 || b == 45u8;
        proof {
            assert(s@[i as int] as u8 == b);
            assert('\0' <= s@[i as int] <= '\u{7f}');
            assert(addr_char(s@[i as int]) == ok);
        }
        if !ok {
            return false;
        }
        i = i + 1;
    }
    true
}

/// Returns whether every character of `s` comes from the base64 alphabet.
pub fn text_b64(s: &str) -> (r: bool)
    ensures
        r == b64_text(s@),
{
    broadcast use vstd::string::group_string_axioms;

    if !s.is_ascii() {
        proof {
            if b64_text(s@) {
                lemma_b64_chars_ascii(s@);
            }
        }
        return false;
    }
    let n = s.unicode_len();
    let mut i: usize = 0;
    while i < n
        invariant
            s.is_ascii(),
            n == s@.len(),
            0 <= i <= n,
            forall|j: int| 0 <= j < i ==> base64_char(#[trigger] s@[j]),
        decreases n - i,
    {
        let b = s.get_ascii(i);
        let ok = (97u8 <= b && b <= 122u8) || (65u8 <= b && b <= 90u8) || (48u8 <= b && b <= 57u8)
            || b == 43u8 || b == 47u8 || b == 61u8;
        proof {
            assert(s@[i as int] as u8 == b);
            assert('\0' <= s@[i as int] <= '\u{7f}');
            assert(base64_char(s@[i as int]) == ok);
        }
        if !ok {
            return false;
        }
        i = i + 1;
    }
    true
}

/// Returns whether a transaction meets the data model.
pub fn tx_wf_check(t: &Transaction) -> (r: bool)
    ensures
        r == tx_wf(t@),
{
    broadcast use vstd::string::group_string_axioms;

    if !crate::text::validate_address(t.from.as_str()) {
        return false;
    }
    if !crate::text::validate_address(t.to.as_str()) {
        return false;
    }
    if !crate::text::validate_amount(t.amount) {
        return false;
    }
    if t.fee != crate::text::fee_for(t.amount) {
        return false;
    }
    if t.nonce < 1 {
        return false;
    }
    if t.tx_id.as_str().is_empty() {
        return false;
    }
    if !text_safe(t.tx_id.as_str()) {
        return false;
    }
    if !text_b64(t.signature.as_str()) {
        return false;
    }
    true
}

/// Returns whether a block meets the data model.
pub fn block_wf_check(b: &Block) -> (r: bool)
    ensures
        r == block_wf(b@),
{
    if !crate::text::validate_address(b.proposer.as_str()) {
        return false;
    }
    if !crate::text::validate_address(b.prev_hash.as_str()) {
        return false;
    }
    if !crate::text::validate_address(b.hash.as_str()) {
        return false;
    }
    if !crate::text::validate_address(b.state_root.as_str()) {
        return false;
    }
    let mut i: usize = 0;
    while i < b.transactions.len()
        invariant
            0 <= i <= b.transactions@.len(),
            forall|j: int| 0 <= j < i ==> tx_wf(#[trigger] b.transactions@[j]@),
        decreases b.transactions@.len() - i,
    {
        if !tx_wf_check(&b.transactions[i]) {
            proof {
                assert(b@.transactions[i as int] == b.transactions@[i as int]@);
            }
            return false;
        }
        i = i + 1;
    }
    proof {
        assert forall|j: int| 0 <= j < b@.transactions.len() implies tx_wf(
            #[trigger] b@.transactions[j],
        ) by {
            assert(b@.transactions[j] == b.transactions@[j]@);
        }
    }
    true
}

/// Returns whether a wallet record is lawful.
pub fn wallet_rec_check(w: &Wallet) -> (r: bool)
    ensures
        r == wallet_rec_wf(w@),
{
    crate::text::validate_address(w.address.as_str()) && w.public_key.len() == 32
        && w.created_at <= w.last_updated
}

} // verus!
