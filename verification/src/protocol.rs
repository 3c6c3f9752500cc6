//! The node's message dispatch.
//!
//! One inbound message at a time drives the chain, the roster and the
//! admission pipeline, and yields the messages to send out: broadcasts on
//! the shared topic and replies on the requesting peer's private topic.
//! The surrounding loop performs the sends and the persistence.

use crate::amount::{amount_units, amount_wf, pow10, Amount};
use crate::admission::{admission_grants, spec_admission_inputs, spec_admission_outputs};
use crate::chain::{
    chain_block, chain_ready, chain_text, latest_view, only_corrupt_deleted, scan_clean,
    txs_balance, wallet_found, wallet_sum, wallet_tx_views, Chain,
};
use crate::messages::{Msg, TransactionErrorCode, WalletQueryError};
use crate::mining::{spec_register, Miner, MiningDatabase};
use crate::wallet::{wallet_wf, Wallet};
use vstd::prelude::*;

verus! {

/// An outbound message and where it goes: the shared topic or a peer's
/// private topic.
#[derive(Debug)]
pub enum Outbound {
    Publish(Msg),
    Send(String, Msg),
}

/// The roster after registering a list of miners in order.
pub open spec fn spec_register_all(s: Seq<Miner>, ms: Seq<Miner>) -> Seq<Miner>
    decreases ms.len(),
{
    if ms.len() == 0 {
        s
    } else {
        spec_register(spec_register_all(s, ms.drop_last()), ms.last())
    }
}

/// The fee the node keeps on every admitted transaction.
pub open spec fn node_fee() -> Amount {
    Amount { mantissa: 2 as i128, scale: 2 as u32 }
}

/// One rejection reply: a single message to the requesting peer, carrying
/// the given code and a description.
pub open spec fn nok_reply(out: Seq<Outbound>, peer: Seq<char>, code: TransactionErrorCode) -> bool {
    out.len() == 1 && (out[0] matches Outbound::Send(p, m) && p@ == peer && (
    m matches Msg::TransactionResult(tr) && tr.status is Nok && (tr.error matches Some(e) && e.code
        == code && e.description@.len() > 0)))
}

/// A successful wallet reply: the queried address, exactly the stored
/// transactions that reference it, and their balance.
pub open spec fn wallet_ok_reply(
    c: Chain,
    addr: Seq<char>,
    d: crate::messages::WalletTransactions,
) -> bool {
    &&& d.address@ == addr
    &&& d.transactions@.len() == wallet_tx_views(c, addr, 0).len()
    &&& forall|k: int|
        0 <= k < d.transactions@.len() ==> crate::codec::input_views(
            (#[trigger] d.transactions@[k]).inputs@,
        ) == wallet_tx_views(c, addr, 0)[k].inputs && crate::codec::output_views(
            d.transactions@[k].outputs@,
        ) == wallet_tx_views(c, addr, 0)[k].outputs && d.transactions@[k].signature@
            == wallet_tx_views(c, addr, 0)[k].signature
    &&& amount_units(d.balance) == txs_balance(d.transactions@, addr)
    &&& amount_units(d.balance) >= 0
}

/// The wire description of a rejection code.
fn describe(code: TransactionErrorCode) -> (r: String)
    ensures
        r@.len() > 0,
{
    let text = match code {
        TransactionErrorCode::InputWalletNotFound => "input wallet could not be found",
        TransactionErrorCode::OutputWalletNotFound => "output wallet could not be found",
        TransactionErrorCode::InsufficientBalance => {
            "you don't have enough jab to perform this transaction"
        },
        TransactionErrorCode::InvalidSignature => "the transaction signature is invalid",
        TransactionErrorCode::BlockchainError => "blockchain error",
    };
    let owned = text.to_owned();
    proof {
        reveal_strlit("input wallet could not be found");
        reveal_strlit("output wallet could not be found");
        reveal_strlit("you don't have enough jab to perform this transaction");
        reveal_strlit("the transaction signature is invalid");
        reveal_strlit("blockchain error");
    }
    owned
}

/// Dispatch one inbound message: apply it to the chain and the roster, and
/// return what goes out, broadcasts first.
#[verifier::rlimit(100)]
#[verifier::spinoff_prover]
pub fn handle_message(
    chain: &mut Chain,
    miners: &mut MiningDatabase,
    wallet: &Wallet,
    msg: Msg,
) -> (out: Vec<Outbound>)
    requires
        chain_text(*old(chain), 0) is Some,
        wallet_wf(*wallet),
        crate::mining::roster_wf(*old(miners)),
    ensures
        msg matches Msg::RegisterMiners(r) ==> final(miners).miners@ == spec_register_all(
            old(miners).miners@,
            r.miners@,
        ) && *final(chain) == *old(chain) && out@.len() == 0,
        msg is RequestRegisteredMiners ==> *final(chain) == *old(chain) && *final(miners) == *old(
            miners,
        ) && out@.len() == 1 && (out@[0] matches Outbound::Publish(m) && (
        m matches Msg::RegisterMiners(rm) && rm.miners@ == old(miners).miners@)),
        msg matches Msg::RequestBlock(q) ==> *final(miners) == *old(miners)
            && only_corrupt_deleted(*old(chain), *final(chain)) && (chain_block(*old(chain), q.index)
            matches Some(v) ==> out@.len() == 1 && (out@[0] matches Outbound::Publish(m) && (
        m matches Msg::Block(b) && crate::codec::block_view(b.block) == v))) && (chain_text(
            *old(chain),
            q.index,
        ) is None ==> out@.len() == 0),
        msg is Block ==> *final(miners) == *old(miners),
        msg matches Msg::Block(bm) ==> (crate::block::block_wf(bm.block) && chain_ready(
            *old(chain),
        ) && (latest_view(*old(chain)) matches Some(lv) && bm.block.index == lv.index + 1
            && lv.index < 0xffff_ffff_ffff_fffe && lv.index + 1 == crate::chain::scan_end(
            *old(chain),
            1,
        ) && chain_text(*old(chain), (lv.index + 2) as u64) is None && (crate::codec::block_view(
            bm.block,
        ).prev matches Some(h) && h == lv.merkle)) ==> out@.len() == 1 && (out@[0] matches
            Outbound::Publish(m) && (m matches Msg::RequestBlock(q2) && q2.index == bm.block.index
            + 1))),
        msg matches Msg::Block(bm) ==> (crate::block::block_wf(bm.block) && chain_ready(
            *old(chain),
        ) && (crate::chain::latest_view(*old(chain)) matches Some(lv) && bm.block.index > lv.index
            && (crate::codec::block_view(bm.block).prev matches Some(h) && h == lv.merkle))
            ==> chain_block(*final(chain), bm.block.index) == Some(
            crate::codec::block_view(bm.block),
        )),
        msg is TransactionResult || msg is WalletDetailsResult ==> *final(chain) == *old(chain)
            && *final(miners) == *old(miners) && out@.len() == 0,
        msg matches Msg::Transaction(req) ==> final(miners).miners@ == old(miners).miners@
            && out@.len() >= 1 && (out@[0] matches Outbound::Send(p, m) && p@ == req.peer_id@ && (
        m is TransactionResult)),
        msg matches Msg::Transaction(req) ==> (!amount_wf(req.amount) || amount_units(req.amount)
            < 0 ==> nok_reply(out@, req.peer_id@, TransactionErrorCode::InsufficientBalance)
            && *final(chain) == *old(chain)),
        msg matches Msg::Transaction(req) ==> (amount_wf(req.amount) && scan_clean(*old(chain))
            && wallet_sum(*old(chain), req.input_address@, 0) <= pow10(36) && amount_units(
            req.amount,
        ) >= 0 && !wallet_found(*old(chain), req.input_address@, 0) ==> nok_reply(
            out@,
            req.peer_id@,
            TransactionErrorCode::InputWalletNotFound,
        ) && *final(chain) == *old(chain)),
        msg matches Msg::Transaction(req) ==> (amount_wf(req.amount) && scan_clean(*old(chain))
            && wallet_sum(*old(chain), req.input_address@, 0) <= pow10(36) && amount_units(
            req.amount,
        ) >= 0 && wallet_found(*old(chain), req.input_address@, 0) && wallet_sum(
            *old(chain),
            req.input_address@,
            0,
        ) < amount_units(req.amount) ==> nok_reply(
            out@,
            req.peer_id@,
            TransactionErrorCode::InsufficientBalance,
        ) && *final(chain) == *old(chain)),
        msg matches Msg::Transaction(req) ==> (amount_wf(req.amount) && scan_clean(*old(chain))
            && wallet_sum(*old(chain), req.input_address@, 0) <= pow10(36) && amount_units(
            req.amount,
        ) >= 0 && wallet_found(*old(chain), req.input_address@, 0) && wallet_sum(
            *old(chain),
            req.input_address@,
            0,
        ) >= amount_units(req.amount) && !wallet_found(*old(chain), req.output_address@, 0)
            ==> nok_reply(out@, req.peer_id@, TransactionErrorCode::OutputWalletNotFound)
            && *final(chain) == *old(chain)),
        msg matches Msg::Transaction(req) ==> (amount_wf(req.amount) && admission_grants(
            *old(chain),
            *wallet,
            req.input_address@,
            req.output_address@,
            req.amount,
            node_fee(),
            req.signature@,
            req.public_key@,
        ) && chain_ready(*old(chain)) && (latest_view(*old(chain)) matches Some(lv) && lv.index
            < 0xffff_ffff_ffff_fffe && lv.index + 1 == crate::chain::scan_end(*old(chain), 1)
            && chain_text(*old(chain), (lv.index + 2) as u64) is None) ==> out@.len() == 2 && (
        out@[0] matches Outbound::Send(p0, m0) && p0@ == req.peer_id@ && (
        m0 matches Msg::TransactionResult(tr) && tr.status
            is Okay && tr.error is None)) && (out@[1] matches Outbound::Publish(m1) && (
        m1 matches Msg::Block(bb) && crate::codec::block_view(bb.block).inputs
            == spec_admission_inputs(req.input_address@, req.amount)
            && crate::codec::block_view(bb.block).outputs == spec_admission_outputs(
            req.output_address@,
            req.amount,
            node_fee(),
            *wallet,
        ) && crate::codec::block_view(bb.block).signature == req.signature@ && bb.block.index
            == crate::chain::latest_index(*old(chain)) + 1 && crate::codec::block_view(
            bb.block,
        ).prev == Some(latest_view(*old(chain))->Some_0.merkle) && chain_block(
            *final(chain),
            bb.block.index,
        ) == Some(crate::codec::block_view(bb.block))))),
        msg matches Msg::WalletDetails(q) ==> *final(miners) == *old(miners) && out@.len() == 1
            && (out@[0] matches Outbound::Send(p, m) && p@ == q.peer_id@ && (
        m is WalletDetailsResult)),
        msg matches Msg::WalletDetails(q) && scan_clean(*old(chain)) && wallet_tx_views(
            *old(chain),
            q.address@,
            0,
        ).len() == 0 ==> (out@[0] matches Outbound::Send(p, m) && (m
            matches Msg::WalletDetailsResult(w) && w == crate::messages::WalletQueryResult::Error(
            WalletQueryError::WalletNotFound,
        ))),
        msg matches Msg::WalletDetails(q) && !scan_clean(*old(chain)) ==> (out@[0] matches
            Outbound::Send(p, m) && (m matches Msg::WalletDetailsResult(w) && w
            == crate::messages::WalletQueryResult::Error(WalletQueryError::BlockchainError))),
        msg matches Msg::WalletDetails(q) ==> (scan_clean(*old(chain)) && wallet_tx_views(
            *old(chain),
            q.address@,
            0,
        ).len() > 0 ==> (out@[0] matches Outbound::Send(p, m) && (m
            matches Msg::WalletDetailsResult(w) && ((w matches
            crate::messages::WalletQueryResult::Okay(d) && wallet_ok_reply(
            *old(chain),
            q.address@,
            d,
        )) || w == crate::messages::WalletQueryResult::Error(
            WalletQueryError::BlockchainError,
        ))))),
        crate::mining::roster_wf(*final(miners)),
{
    let mut out: Vec<Outbound> = Vec::new();
    match msg {
        Msg::Block(block) => {
            let ghost c0 = *chain;
            let ghost bview = crate::codec::block_view(block.block);
            let ghost bidx = block.block.index;
            if block.block.is_well_formed() {
                let added = chain.add_block(block.block);
                if added.is_err() {
                }
            }
            let ghost accepted = crate::block::block_wf(block.block) && chain_ready(c0) && (
            crate::chain::latest_view(c0) matches Some(lv) && bidx > lv.index && (bview.prev
                matches Some(h) && h == lv.merkle));
            let ghost contiguous = accepted && (crate::chain::latest_view(c0) matches Some(lv)
                && bidx == lv.index + 1 && lv.index < 0xffff_ffff_ffff_fffe && lv.index + 1
                == crate::chain::scan_end(c0, 1) && chain_text(c0, (lv.index + 2) as u64) is None);
            proof {
                if accepted {
                    assert(chain_block(*chain, bidx) == Some(bview));
                    assert(!crate::chain::chain_corrupt(*chain, bidx));
                }
                if contiguous {
                    crate::chain::lemma_scan_end_ge(c0, 1);
                    assert forall|i: u64| 1 <= i < bidx + 1 implies #[trigger] chain_text(
                        *chain,
                        i,
                    ) is Some by {
                        if i < bidx {
                            crate::chain::lemma_scan_end_some(c0, 1, i);
                            assert(chain_text(*chain, i) == chain_text(c0, i));
                        } else {
                            assert(chain_block(*chain, bidx) is Some);
                        }
                    }
                    assert(chain_text(*chain, (bidx + 1) as u64) == chain_text(
                        c0,
                        (bidx + 1) as u64,
                    ));
                    crate::chain::lemma_scan_end_at(*chain, 1, (bidx + 1) as u64);
                    assert(chain_ready(*chain)) by {
                        assert forall|i: u64|
                            1 <= i < crate::chain::scan_end(*chain, 1) implies !#[trigger]
                        crate::chain::chain_corrupt(*chain, i) by {
                            if i < bidx {
                                assert(chain_text(*chain, i) == chain_text(c0, i));
                                assert(!crate::chain::chain_corrupt(c0, i));
                            } else {
                                assert(chain_block(*chain, bidx) is Some);
                            }
                        }
                    }
                    assert(crate::chain::latest_index(*chain) == bidx);
                    assert(latest_view(*chain) == Some(bview));
                }
            }
            let ghost c1 = *chain;
            match chain.get_block(0) {
                Ok(Some(_)) => {
                    match chain.get_latest_block() {
                        Ok(latest) => {
                            proof {
                                if contiguous {
                                    assert(Some(crate::codec::block_view(latest)) == latest_view(
                                        c1,
                                    ));
                                    assert(latest.index == bview.index);
                                }
                            }
                            let next = if latest.index() < 0xffff_ffff_ffff_ffffu64 {
                                latest.index() + 1
                            } else {
                                latest.index()
                            };
                            out.push(Outbound::Publish(Msg::request_block(next)));
                        },
                        Err(_) => {
                            proof {
                                if contiguous {
                                    assert(false);
                                }
                            }
                        },
                    }
                },
                _ => {
                    proof {
                        if contiguous {
                            assert(chain_block(c1, 0) is Some);
                            assert(false);
                        }
                    }
                },
            }
            proof {
                if accepted {
                    assert(chain_text(*chain, bidx) == chain_text(c1, bidx));
                    assert(chain_block(*chain, bidx) == Some(bview));
                }
            }
        },
        Msg::RequestBlock(req) => {
            match chain.get_block(req.index) {
                Ok(Some(block)) => {
                    out.push(Outbound::Publish(Msg::block(block)));
                    proof {
                        assert(out@.len() == 1);
                    }
                },
                Ok(None) => {},
                Err(_) => {},
            }
        },
        Msg::RegisterMiners(roster) => {
            let ms = roster.miners;
            let n = ms.len();
            let mut i: usize = 0;
            proof {
                assert(ms@.subrange(0, 0) =~= Seq::<Miner>::empty());
            }
            while i < n
                invariant
                    i <= n,
                    n == ms@.len(),
                    *chain == *old(chain),
                    miners.miners@ == spec_register_all(old(miners).miners@, ms@.subrange(0, i as int)),
                    miners.last_block_mined_by == old(miners).last_block_mined_by,
                    out@.len() == 0,
                decreases n - i,
            {
                miners.register_miner(ms[i].clone());
                proof {
                    let cur = ms@.subrange(0, i as int + 1);
                    assert(cur.drop_last() =~= ms@.subrange(0, i as int));
                    assert(cur.last() == ms@[i as int]);
                }
                i += 1;
            }
            proof {
                assert(ms@.subrange(0, n as int) =~= ms@);
            }
        },
        Msg::RequestRegisteredMiners => {
            out.push(Outbound::Publish(Msg::register_miners(miners.miners().as_slice())));
        },
        Msg::Transaction(req) => {
            proof {
                crate::amount::lemma_pow10_pos(16);
                crate::amount::lemma_pow10_increases(16, 35);
                assert(pow10(36) == 10 * pow10(35));
                assert(amount_units(Amount { mantissa: 2 as i128, scale: 2 as u32 }) == 2 * pow10(
                    16,
                ));
                assert(0 <= 2 * pow10(16) <= pow10(36)) by (nonlinear_arith)
                    requires
                        pow10(16) >= 1,
                        pow10(16) <= pow10(35),
                        pow10(36) == 10 * pow10(35),
                ;
                assert(amount_wf(Amount { mantissa: 2 as i128, scale: 2 as u32 }));
            }
            if !req.amount.is_well_formed() {
                out.push(
                    Outbound::Send(
                        req.peer_id,
                        Msg::transaction_result_nok(
                            TransactionErrorCode::InsufficientBalance,
                            describe(TransactionErrorCode::InsufficientBalance).as_str(),
                        ),
                    ),
                );
                return out;
            }
            let opts = crate::admission::TransactionOptions::new(
                req.input_address.as_str(),
                req.output_address.as_str(),
            ).amount(req.amount).fee(Amount::new(2, 2)).signature(req.signature.as_str()).public_key(
                req.public_key.as_str(),
            );
            match crate::admission::TransactionHelper::create_transaction(opts, wallet, chain) {
                Err(e) => {
                    let code = e.wire_code();
                    out.push(
                        Outbound::Send(
                            req.peer_id,
                            Msg::transaction_result_nok(code, describe(code).as_str()),
                        ),
                    );
                },
                Ok(transaction) => {
                    miners.set_last_block_miner();
                    let genesis_present = match chain.get_block(0) {
                        Ok(Some(_)) => true,
                        _ => false,
                    };
                    if genesis_present {
                        match chain.generate_next_block(transaction) {
                            Ok(block) => {
                                out.push(
                                    Outbound::Send(req.peer_id, Msg::transaction_result_ok()),
                                );
                                out.push(Outbound::Publish(Msg::block(block)));
                            },
                            Err(_) => {
                                out.push(
                                    Outbound::Send(
                                        req.peer_id,
                                        Msg::transaction_result_nok(
                                            TransactionErrorCode::BlockchainError,
                                            describe(
                                                TransactionErrorCode::BlockchainError,
                                            ).as_str(),
                                        ),
                                    ),
                                );
                            },
                        }
                    } else {
                        out.push(
                            Outbound::Send(
                                req.peer_id,
                                Msg::transaction_result_nok(
                                    TransactionErrorCode::BlockchainError,
                                    describe(TransactionErrorCode::BlockchainError).as_str(),
                                ),
                            ),
                        );
                    }
                },
            }
        },
        Msg::TransactionResult(_) => {},
        Msg::WalletDetails(query) => {
            match chain.wallet_transactions(query.address.as_str()) {
                Err(_) => {
                    out.push(
                        Outbound::Send(
                            query.peer_id,
                            Msg::wallet_details_result_error(WalletQueryError::BlockchainError),
                        ),
                    );
                },
                Ok(None) => {
                    out.push(
                        Outbound::Send(
                            query.peer_id,
                            Msg::wallet_details_result_error(WalletQueryError::WalletNotFound),
                        ),
                    );
                },
                Ok(Some(transactions)) => {
                    match crate::chain::wallet_balance(&transactions, query.address.as_str()) {
                        Some(balance) => {
                            out.push(
                                Outbound::Send(
                                    query.peer_id,
                                    Msg::wallet_details_result_ok(
                                        query.address.as_str(),
                                        transactions,
                                        balance,
                                    ),
                                ),
                            );
                        },
                        None => {
                            out.push(
                                Outbound::Send(
                                    query.peer_id,
                                    Msg::wallet_details_result_error(
                                        WalletQueryError::BlockchainError,
                                    ),
                                ),
                            );
                        },
                    }
                },
            }
        },
        Msg::WalletDetailsResult(_) => {},
    }
    out
}

} // verus!
