//! System-wide guarantees of the engine, stated over the model and proved
//! once and for all: conservation of funds, the dispute lifecycle acting as
//! an exact inverse pair, permanence of a chargeback's freeze, and
//! independence of per-client results from cross-client interleaving.

use vstd::prelude::*;

use crate::engine::{ClientId, TxId};
use crate::errors::AccountingError;
use crate::model::{account_or_new, client_of, run, step, EngineModel};
use crate::transactions::{Event, Transaction};

verus! {

/// A frozen account rejects every event addressed to it, and nothing — not
/// its balances, not the ledger — changes.
pub proof fn lemma_frozen_account_rejects(s: EngineModel, e: Event)
    requires
        s.accounts.contains_key(client_of(e)),
        s.accounts[client_of(e)].locked,
    ensures
        step(s, e).state == s,
        step(s, e).result == Some(AccountingError::AccountFrozen(client_of(e))),
{
    assert(s.accounts.insert(client_of(e), s.accounts[client_of(e)]) =~= s.accounts);
    assert(step(s, e).state =~= s);
}

/// No event unlocks an account: once frozen, frozen for the rest of the run.
pub proof fn lemma_locked_is_permanent(s: EngineModel, e: Event, c: ClientId)
    requires
        s.accounts.contains_key(c),
        s.accounts[c].locked,
    ensures
        step(s, e).state.accounts.contains_key(c),
        step(s, e).state.accounts[c].locked,
{
    if client_of(e) == c {
        lemma_frozen_account_rejects(s, e);
    }
}

/// An accepted chargeback leaves the account frozen, and every later event
/// of the run still finds it frozen.
pub proof fn lemma_chargeback_locks(s: EngineModel, client: ClientId, tx_id: TxId, rest: Seq<
    Event,
>)
    requires
        step(s, Event::Chargeback { client, tx_id }).result is None,
    ensures
        ({
            let s1 = step(s, Event::Chargeback { client, tx_id }).state;
            let s2 = run(s1, rest);
            &&& s1.accounts[client].locked
            &&& s2.accounts.contains_key(client)
            &&& s2.accounts[client].locked
        }),
{
    let s1 = step(s, Event::Chargeback { client, tx_id }).state;
    lemma_locked_stays(s1, rest, client);
}

/// Helper for the above: a frozen account stays frozen over any stream.
pub proof fn lemma_locked_stays(s: EngineModel, es: Seq<Event>, c: ClientId)
    requires
        s.accounts.contains_key(c),
        s.accounts[c].locked,
    ensures
        run(s, es).accounts.contains_key(c),
        run(s, es).accounts[c].locked,
    decreases es.len(),
{
    if es.len() > 0 {
        lemma_locked_is_permanent(s, es[0], c);
        lemma_locked_stays(step(s, es[0]).state, es.drop_first(), c);
    }
}

/// Depositing, disputing and resolving one transaction is a no-op: the
/// engine returns to its state just after the deposit, with the transaction
/// on record and not disputed.
pub proof fn lemma_dispute_resolve_roundtrip(s: EngineModel, t: Transaction)
    requires
        !t.is_disputed,
        step(s, Event::Deposit(t)).result is None,
    ensures
        ({
            let s1 = step(s, Event::Deposit(t)).state;
            let dispute = Event::Dispute { client: t.client, tx_id: t.id };
            let resolve = Event::Resolve { client: t.client, tx_id: t.id };
            let s2 = step(s1, dispute).state;
            let s3 = step(s2, resolve).state;
            &&& step(s1, dispute).result is None
            &&& step(s2, resolve).result is None
            &&& s3 == s1
            &&& s3.ledger.contains_key(t.id)
            &&& !s3.ledger[t.id].is_disputed
        }),
{
    let s1 = step(s, Event::Deposit(t)).state;
    let dispute = Event::Dispute { client: t.client, tx_id: t.id };
    let resolve = Event::Resolve { client: t.client, tx_id: t.id };
    let s2 = step(s1, dispute).state;
    let s3 = step(s2, resolve).state;
    assert(s2.ledger[t.id] == Transaction { is_disputed: true, ..t });
    assert(s3.ledger =~= s1.ledger);
    assert(s3.accounts =~= s1.accounts);
    assert(s3 =~= s1);
}

/// Disputing a transaction twice: the second dispute is rejected as already
/// disputed, and changes nothing beyond the first dispute's effect.
pub proof fn lemma_second_dispute_rejected(s: EngineModel, client: ClientId, tx_id: TxId)
    requires
        step(s, Event::Dispute { client, tx_id }).result is None,
    ensures
        ({
            let dispute = Event::Dispute { client, tx_id };
            let s1 = step(s, dispute).state;
            &&& step(s1, dispute).result == Some(
                AccountingError::TransactionAlreadyDisputed(tx_id),
            )
            &&& step(s1, dispute).state == s1
        }),
{
    let dispute = Event::Dispute { client, tx_id };
    let s1 = step(s, dispute).state;
    assert(s1.accounts.insert(client, s1.accounts[client]) =~= s1.accounts);
    assert(step(s1, dispute).state =~= s1);
}

/// Charging back a disputed withdrawal leaves `available` strictly above
/// what a resolve would leave: the dispute already reversed the debit, and
/// the chargeback drops the held (negative) amount instead of re-applying
/// it. The gap is exactly the withdrawal's magnitude.
pub proof fn lemma_chargeback_vs_resolve(s: EngineModel, client: ClientId, tx_id: TxId)
    requires
        s.ledger.contains_key(tx_id),
        s.ledger[tx_id].amount.units < 0,
        step(s, Event::Resolve { client, tx_id }).result is None,
    ensures
        ({
            let sr = step(s, Event::Resolve { client, tx_id }).state;
            let sc = step(s, Event::Chargeback { client, tx_id }).state;
            &&& step(s, Event::Chargeback { client, tx_id }).result is None
            &&& sc.accounts[client].available == sr.accounts[client].available
                - s.ledger[tx_id].amount.units
            &&& sc.accounts[client].available > sr.accounts[client].available
        }),
{
}

/// All events are plain transfers: deposits (not pre-disputed) and
/// withdrawals, with no dispute lifecycle events among them.
pub open spec fn transfers_only(es: Seq<Event>) -> bool {
    forall|i: int|
        0 <= i < es.len() ==> match #[trigger] es[i] {
            Event::Deposit(t) => !t.is_disputed,
            Event::Withdrawal(t) => true,
            _ => false,
        }
}

/// Every event of the stream is accepted when run from `s`.
pub open spec fn all_accepted(s: EngineModel, es: Seq<Event>) -> bool
    decreases es.len(),
{
    es.len() == 0 || (step(s, es[0]).result is None && all_accepted(
        step(s, es[0]).state,
        es.drop_first(),
    ))
}

/// The sum of the deposit amounts addressed to one client.
pub open spec fn deposits_total(es: Seq<Event>, c: ClientId) -> int
    decreases es.len(),
{
    if es.len() == 0 {
        0
    } else {
        (match es[0] {
            Event::Deposit(t) => if t.client == c {
                t.amount.units as int
            } else {
                0
            },
            _ => 0,
        }) + deposits_total(es.drop_first(), c)
    }
}

/// The sum of the withdrawal amounts addressed to one client.
pub open spec fn withdrawals_total(es: Seq<Event>, c: ClientId) -> int
    decreases es.len(),
{
    if es.len() == 0 {
        0
    } else {
        (match es[0] {
            Event::Withdrawal(t) => if t.client == c {
                t.amount.units as int
            } else {
                0
            },
            _ => 0,
        }) + withdrawals_total(es.drop_first(), c)
    }
}

/// Conservation over plain transfers, from any starting state: a client's
/// total moves by exactly the accepted deposits minus the accepted
/// withdrawals, and the held balance does not move at all.
pub proof fn lemma_conservation_from(s: EngineModel, es: Seq<Event>, c: ClientId)
    requires
        transfers_only(es),
        all_accepted(s, es),
    ensures
        ({
            let a0 = account_or_new(s, c);
            let a1 = account_or_new(run(s, es), c);
            &&& a1.available + a1.held == a0.available + a0.held + deposits_total(es, c)
                - withdrawals_total(es, c)
            &&& a1.held == a0.held
        }),
    decreases es.len(),
{
    if es.len() > 0 {
        lemma_conservation_from(step(s, es[0]).state, es.drop_first(), c);
    }
}

/// Conservation of funds: over any fully accepted stream of plain deposits
/// and withdrawals from a fresh engine, each client's final total is the sum
/// of its deposits minus the sum of its withdrawals, with nothing held.
pub proof fn lemma_conservation(es: Seq<Event>, c: ClientId)
    requires
        transfers_only(es),
        all_accepted(EngineModel::initial(), es),
    ensures
        ({
            let a = account_or_new(run(EngineModel::initial(), es), c);
            &&& a.available + a.held == deposits_total(es, c) - withdrawals_total(es, c)
            &&& a.held == 0
        }),
{
    lemma_conservation_from(EngineModel::initial(), es, c);
}

/// The subsequence of a stream addressed to one client, order preserved.
pub open spec fn events_for(es: Seq<Event>, c: ClientId) -> Seq<Event>
    decreases es.len(),
{
    if es.len() == 0 {
        Seq::empty()
    } else if client_of(es[0]) == c {
        seq![es[0]] + events_for(es.drop_first(), c)
    } else {
        events_for(es.drop_first(), c)
    }
}

/// The ledger id a deposit or withdrawal would create its entry under.
pub open spec fn created_id(e: Event) -> Option<TxId> {
    match e {
        Event::Deposit(t) => Some(t.id),
        Event::Withdrawal(t) => Some(t.id),
        _ => None,
    }
}

/// Transaction ids are not shared across the client boundary: no deposit or
/// withdrawal of client `c` reuses an id that a deposit or withdrawal of
/// another client carries. (Globally unique ids give this for free.)
pub open spec fn separated(es: Seq<Event>, c: ClientId) -> bool {
    forall|i: int, j: int|
        #![trigger es[i], es[j]]
        0 <= i < es.len() && 0 <= j < es.len() && client_of(es[i]) == c && client_of(es[j]) != c
            && created_id(es[i]) is Some ==> created_id(es[i]) != created_id(es[j])
}

/// The ledger restricted to one client's entries.
pub open spec fn own_entries(ledger: Map<TxId, Transaction>, c: ClientId) -> Map<
    TxId,
    Transaction,
> {
    Map::new(|k: TxId| ledger.dom().contains(k) && ledger[k].client == c, |k: TxId| ledger[k])
}

/// Two engine states look the same to client `c`: same account presence and
/// value, same own slice of the ledger.
pub open spec fn agree(s: EngineModel, t: EngineModel, c: ClientId) -> bool {
    &&& s.accounts.contains_key(c) == t.accounts.contains_key(c)
    &&& account_or_new(s, c) == account_or_new(t, c)
    &&& own_entries(s.ledger, c) == own_entries(t.ledger, c)
}

/// No ledger entry owned by another client sits on an id that a coming
/// deposit or withdrawal of client `c` will claim.
pub open spec fn foreign_avoids(ledger: Map<TxId, Transaction>, c: ClientId, es: Seq<
    Event,
>) -> bool {
    forall|k: TxId, i: int|
        #![trigger ledger[k], es[i]]
        ledger.dom().contains(k) && ledger[k].client != c && 0 <= i < es.len() && client_of(
            es[i],
        ) == c ==> created_id(es[i]) != Some(k)
}

/// An event of another client is invisible to client `c`: its account and
/// its slice of the ledger do not move, and the only ledger id the event can
/// take is the one it creates.
proof fn lemma_step_foreign(s: EngineModel, e: Event, c: ClientId)
    requires
        client_of(e) != c,
    ensures
        step(s, e).state.accounts.contains_key(c) == s.accounts.contains_key(c),
        account_or_new(step(s, e).state, c) == account_or_new(s, c),
        own_entries(step(s, e).state.ledger, c) == own_entries(s.ledger, c),
        forall|k: TxId|
            step(s, e).state.ledger.dom().contains(k) && !s.ledger.dom().contains(k)
                ==> created_id(e) == Some(k),
{
    let s1 = step(s, e).state;
    assert(own_entries(s1.ledger, c) =~= own_entries(s.ledger, c));
}

/// One event of client `c` lands the same way on two states that agree for
/// `c`, provided its fresh id (if any) is not buried under another client's
/// entry on either side: the states go on agreeing, and the foreign slices
/// of both ledgers stay exactly as they were.
proof fn lemma_step_own(s: EngineModel, t: EngineModel, e: Event, c: ClientId)
    requires
        client_of(e) == c,
        agree(s, t, c),
        forall|k: TxId|
            created_id(e) == Some(k) ==> !(s.ledger.dom().contains(k) && s.ledger[k].client != c)
                && !(t.ledger.dom().contains(k) && t.ledger[k].client != c),
    ensures
        agree(step(s, e).state, step(t, e).state, c),
        forall|k: TxId|
            #![trigger step(s, e).state.ledger[k]]
            (step(s, e).state.ledger.dom().contains(k) && step(s, e).state.ledger[k].client != c)
                == (s.ledger.dom().contains(k) && s.ledger[k].client != c),
        forall|k: TxId|
            #![trigger step(s, e).state.ledger[k]]
            s.ledger.dom().contains(k) && s.ledger[k].client != c ==> step(
                s,
                e,
            ).state.ledger[k] == s.ledger[k],
        forall|k: TxId|
            #![trigger step(t, e).state.ledger[k]]
            (step(t, e).state.ledger.dom().contains(k) && step(t, e).state.ledger[k].client != c)
                == (t.ledger.dom().contains(k) && t.ledger[k].client != c),
        forall|k: TxId|
            #![trigger step(t, e).state.ledger[k]]
            t.ledger.dom().contains(k) && t.ledger[k].client != c ==> step(
                t,
                e,
            ).state.ledger[k] == t.ledger[k],
{
    let s1 = step(s, e).state;
    let t1 = step(t, e).state;
    match e {
        Event::Deposit(tx) => {
            assert(s.ledger.dom().contains(tx.id) == own_entries(s.ledger, c).dom().contains(
                tx.id,
            ));
            assert(t.ledger.dom().contains(tx.id) == own_entries(t.ledger, c).dom().contains(
                tx.id,
            ));
            if !s.ledger.dom().contains(tx.id) && !account_or_new(s, c).locked {
                lemma_own_entries_insert(s.ledger, c, tx.id, tx);
                lemma_own_entries_insert(t.ledger, c, tx.id, tx);
            }
            assert(own_entries(s1.ledger, c) =~= own_entries(t1.ledger, c));
        },
        Event::Withdrawal(tx) => {
            assert(s.ledger.dom().contains(tx.id) == own_entries(s.ledger, c).dom().contains(
                tx.id,
            ));
            assert(t.ledger.dom().contains(tx.id) == own_entries(t.ledger, c).dom().contains(
                tx.id,
            ));
            let stored = Transaction {
                amount: crate::engine::Amount { units: (-tx.amount.units) as i64 },
                ..tx
            };
            lemma_own_entries_insert(s.ledger, c, tx.id, stored);
            lemma_own_entries_insert(t.ledger, c, tx.id, stored);
            assert(own_entries(s1.ledger, c) =~= own_entries(t1.ledger, c));
        },
        Event::Dispute { tx_id, .. } => {
            lemma_lookup_agrees(s, t, c, tx_id);
            if s.ledger.dom().contains(tx_id) && s.ledger[tx_id].client == c {
                lemma_own_entries_insert(
                    s.ledger,
                    c,
                    tx_id,
                    Transaction { is_disputed: true, ..s.ledger[tx_id] },
                );
                lemma_own_entries_insert(
                    t.ledger,
                    c,
                    tx_id,
                    Transaction { is_disputed: true, ..t.ledger[tx_id] },
                );
            } else {
                assert(s1.ledger == s.ledger);
                assert(t1.ledger == t.ledger);
            }
            assert(own_entries(s1.ledger, c) =~= own_entries(t1.ledger, c));
        },
        Event::Resolve { tx_id, .. } => {
            lemma_lookup_agrees(s, t, c, tx_id);
            if s.ledger.dom().contains(tx_id) && s.ledger[tx_id].client == c {
                lemma_own_entries_insert(
                    s.ledger,
                    c,
                    tx_id,
                    Transaction { is_disputed: false, ..s.ledger[tx_id] },
                );
                lemma_own_entries_insert(
                    t.ledger,
                    c,
                    tx_id,
                    Transaction { is_disputed: false, ..t.ledger[tx_id] },
                );
            } else {
                assert(s1.ledger == s.ledger);
                assert(t1.ledger == t.ledger);
            }
            assert(own_entries(s1.ledger, c) =~= own_entries(t1.ledger, c));
        },
        Event::Chargeback { tx_id, .. } => {
            lemma_lookup_agrees(s, t, c, tx_id);
            if s.ledger.dom().contains(tx_id) && s.ledger[tx_id].client == c {
                lemma_own_entries_remove(s.ledger, c, tx_id);
                lemma_own_entries_remove(t.ledger, c, tx_id);
            } else {
                assert(s1.ledger == s.ledger);
                assert(t1.ledger == t.ledger);
            }
            assert(own_entries(s1.ledger, c) =~= own_entries(t1.ledger, c));
        },
    }
}

/// Inserting an entry owned by `c` inserts it into the own slice and leaves
/// the foreign slice alone.
proof fn lemma_own_entries_insert(
    ledger: Map<TxId, Transaction>,
    c: ClientId,
    id: TxId,
    v: Transaction,
)
    requires
        v.client == c,
    ensures
        own_entries(ledger.insert(id, v), c) == own_entries(ledger, c).insert(id, v),
{
    let a = own_entries(ledger.insert(id, v), c);
    let b = own_entries(ledger, c).insert(id, v);
    assert(a.dom() =~= b.dom());
    assert forall|k: TxId| a.dom().contains(k) implies a[k] == b[k] by {}
    assert(a =~= b);
}

/// Removing an entry removes it from the own slice and leaves the foreign
/// slice alone.
proof fn lemma_own_entries_remove(ledger: Map<TxId, Transaction>, c: ClientId, id: TxId)
    ensures
        own_entries(ledger.remove(id), c) == own_entries(ledger, c).remove(id),
{
    let a = own_entries(ledger.remove(id), c);
    let b = own_entries(ledger, c).remove(id);
    assert(a.dom() =~= b.dom());
    assert forall|k: TxId| a.dom().contains(k) implies a[k] == b[k] by {}
    assert(a =~= b);
}

/// On states that agree for `c`, a lookup either finds the same own entry on
/// both sides, or finds no own entry on either.
proof fn lemma_lookup_agrees(s: EngineModel, t: EngineModel, c: ClientId, x: TxId)
    requires
        agree(s, t, c),
    ensures
        (s.ledger.dom().contains(x) && s.ledger[x].client == c) == (t.ledger.dom().contains(x)
            && t.ledger[x].client == c),
        s.ledger.dom().contains(x) && s.ledger[x].client == c ==> s.ledger[x] == t.ledger[x],
{
    assert(own_entries(s.ledger, c).dom().contains(x) == own_entries(t.ledger, c).dom().contains(
        x,
    ));
    if own_entries(s.ledger, c).dom().contains(x) {
        assert(own_entries(s.ledger, c)[x] == own_entries(t.ledger, c)[x]);
    }
}

/// The induction behind routing independence: running the full stream on
/// one state and just client `c`'s subsequence on an agreeing state keeps
/// the two agreeing for `c`.
proof fn lemma_run_agree(s: EngineModel, t: EngineModel, es: Seq<Event>, c: ClientId)
    requires
        agree(s, t, c),
        foreign_avoids(s.ledger, c, es),
        foreign_avoids(t.ledger, c, es),
        separated(es, c),
    ensures
        agree(run(s, es), run(t, events_for(es, c)), c),
    decreases es.len(),
{
    if es.len() > 0 {
        let e = es[0];
        let rest = es.drop_first();
        assert(forall|i: int| 0 <= i < rest.len() ==> #[trigger] rest[i] == es[i + 1]);
        if client_of(e) == c {
            lemma_step_own(s, t, e, c);
            let s1 = step(s, e).state;
            let t1 = step(t, e).state;
            assert(events_for(es, c)[0] == e);
            assert(events_for(es, c).drop_first() =~= events_for(rest, c));
            assert(run(t, events_for(es, c)) == run(t1, events_for(rest, c)));
            assert(foreign_avoids(s1.ledger, c, rest)) by {
                assert forall|k: TxId, i: int|
                    #![trigger s1.ledger[k], rest[i]]
                    s1.ledger.dom().contains(k) && s1.ledger[k].client != c && 0 <= i < rest.len()
                        && client_of(rest[i]) == c implies created_id(rest[i]) != Some(k) by {
                    assert(s.ledger.dom().contains(k) && s.ledger[k].client != c);
                    assert(rest[i] == es[i + 1]);
                }
            }
            assert(foreign_avoids(t1.ledger, c, rest)) by {
                assert forall|k: TxId, i: int|
                    #![trigger t1.ledger[k], rest[i]]
                    t1.ledger.dom().contains(k) && t1.ledger[k].client != c && 0 <= i < rest.len()
                        && client_of(rest[i]) == c implies created_id(rest[i]) != Some(k) by {
                    assert(t.ledger.dom().contains(k) && t.ledger[k].client != c);
                    assert(rest[i] == es[i + 1]);
                }
            }
            lemma_run_agree(s1, t1, rest, c);
        } else {
            lemma_step_foreign(s, e, c);
            let s1 = step(s, e).state;
            assert(agree(s1, t, c));
            assert(events_for(es, c) =~= events_for(rest, c));
            assert(foreign_avoids(s1.ledger, c, rest)) by {
                assert forall|k: TxId, i: int|
                    #![trigger s1.ledger[k], rest[i]]
                    s1.ledger.dom().contains(k) && s1.ledger[k].client != c && 0 <= i < rest.len()
                        && client_of(rest[i]) == c implies created_id(rest[i]) != Some(k) by {
                    assert(rest[i] == es[i + 1]);
                    if s.ledger.dom().contains(k) {
                    } else {
                        assert(created_id(e) == Some(k));
                        assert(created_id(es[i + 1]) != created_id(es[0]));
                    }
                }
            }
            assert(foreign_avoids(t.ledger, c, rest)) by {
                assert forall|k: TxId, i: int|
                    #![trigger t.ledger[k], rest[i]]
                    t.ledger.dom().contains(k) && t.ledger[k].client != c && 0 <= i < rest.len()
                        && client_of(rest[i]) == c implies created_id(rest[i]) != Some(k) by {
                    assert(rest[i] == es[i + 1]);
                }
            }
            lemma_run_agree(s1, t, rest, c);
        }
    }
}

/// Routing independence: as long as deposit and withdrawal ids are not
/// shared across the client boundary, interleaving other clients' events
/// into a client's stream changes nothing about that client's final
/// account — running the client's subsequence alone gives the same result.
pub proof fn lemma_routing_independence(es: Seq<Event>, c: ClientId)
    requires
        separated(es, c),
    ensures
        ({
            let full = run(EngineModel::initial(), es);
            let alone = run(EngineModel::initial(), events_for(es, c));
            &&& full.accounts.contains_key(c) == alone.accounts.contains_key(c)
            &&& account_or_new(full, c) == account_or_new(alone, c)
        }),
{
    let s0 = EngineModel::initial();
    assert(own_entries(s0.ledger, c) =~= own_entries(s0.ledger, c));
    lemma_run_agree(s0, s0, es, c);
}

} // verus!
