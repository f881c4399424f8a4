use vstd::prelude::*;

use crate::account::Account;
use crate::errors::AccountingError;
use crate::ledger::Ledger;
use crate::model::{
    account_or_new, client_of, i128_fits, result_matches, run, run_fits, step, step_fits,
    totals_fit, AccountModel, EngineModel,
};
use crate::transactions::Event;

verus! {

/// Identifies a client account. The first event naming a client implicitly
/// creates that account.
pub type ClientId = u16;

/// Identifies a transaction. Transaction ids are globally unique across all
/// clients; reusing one is an error, never an overwrite.
pub type TxId = u32;

/// An exact fixed-point decimal amount: `units` counts ten-thousandths, so
/// `units == 15000` stands for the decimal 1.5. Four fractional digits are
/// carried; addition, subtraction and sign negation are exact.
#[derive(Clone, Copy, Debug, PartialEq, Eq, Structural)]
pub struct Amount {
    pub units: i64,
}

/// One client's final balance snapshot, as the run's output reports it.
/// Balances are in ten-thousandths, like `Amount`; `total` is always
/// `available + held`.
#[derive(Clone, Copy, Debug, PartialEq, Eq, Structural)]
pub struct AccountingResult {
    pub available: i128,
    pub held: i128,
    pub total: i128,
    pub locked: bool,
}

/// Whether a reported snapshot shows exactly a modelled account.
pub open spec fn result_reflects(r: AccountingResult, a: AccountModel) -> bool {
    &&& r.available == a.available
    &&& r.held == a.held
    &&& r.total == a.available + a.held
    &&& r.locked == a.locked
}

/// No two accounts share a client id.
pub open spec fn unique_clients(s: Seq<Account>) -> bool {
    forall|i: int, j: int| 0 <= i < j < s.len() ==> s[i].id != s[j].id
}

/// The accounts as a map from client id to account model. With unique ids,
/// the order of the accounts is immaterial.
pub open spec fn accounts_map(s: Seq<Account>) -> Map<ClientId, AccountModel>
    decreases s.len(),
{
    if s.len() == 0 {
        Map::empty()
    } else {
        accounts_map(s.drop_last()).insert(s.last().id, s.last()@)
    }
}

/// If no account carries the id, the map has no such key.
proof fn lemma_accounts_map_absent(s: Seq<Account>, x: ClientId)
    requires
        forall|i: int| 0 <= i < s.len() ==> s[i].id != x,
    ensures
        !accounts_map(s).contains_key(x),
    decreases s.len(),
{
    if s.len() > 0 {
        lemma_accounts_map_absent(s.drop_last(), x);
    }
}

/// Each account is in the map under its id, unchanged.
proof fn lemma_accounts_map_index(s: Seq<Account>, i: int)
    requires
        unique_clients(s),
        0 <= i < s.len(),
    ensures
        accounts_map(s).contains_key(s[i].id),
        accounts_map(s)[s[i].id] == s[i]@,
    decreases s.len(),
{
    if i < s.len() - 1 {
        lemma_accounts_map_index(s.drop_last(), i);
    }
}

/// Removing the account at one index removes exactly its key.
proof fn lemma_accounts_map_remove(s: Seq<Account>, i: int)
    requires
        unique_clients(s),
        0 <= i < s.len(),
    ensures
        accounts_map(s.remove(i)) =~= accounts_map(s).remove(s[i].id),
    decreases s.len(),
{
    if i == s.len() - 1 {
        assert(s.remove(i) =~= s.drop_last());
        lemma_accounts_map_absent(s.drop_last(), s[i].id);
    } else {
        assert(s.remove(i).drop_last() =~= s.drop_last().remove(i));
        lemma_accounts_map_remove(s.drop_last(), i);
    }
}

/// The event router and its supervised account units: receives the event
/// stream, demultiplexes by client, creates accounts on first sight, and
/// assembles the final snapshot when the stream ends.
pub struct AccountingEngine {
    accounts: Vec<Account>,
    ledger: Ledger,
}

impl View for AccountingEngine {
    type V = EngineModel;

    closed spec fn view(&self) -> EngineModel {
        EngineModel { accounts: accounts_map(self.accounts@), ledger: self.ledger@ }
    }
}

impl AccountingEngine {
    /// Internal validity: one account per client, one ledger entry per id.
    pub closed spec fn wf(&self) -> bool {
        unique_clients(self.accounts@) && self.ledger.wf()
    }

    /// A fresh engine: no accounts, an empty ledger.
    pub fn new() -> (e: AccountingEngine)
        ensures
            e.wf(),
            e@ == EngineModel::initial(),
    {
        let e = AccountingEngine { accounts: Vec::new(), ledger: Ledger::new() };
        proof {
            assert(e@ =~= EngineModel::initial());
        }
        e
    }

    /// The index of the account owned by `c`, if that client has been seen.
    fn find_account(&self, c: ClientId) -> (r: Option<usize>)
        ensures
            match r {
                Some(i) => i < self.accounts@.len() && self.accounts@[i as int].id == c,
                None => forall|i: int| 0 <= i < self.accounts@.len() ==> self.accounts@[i].id != c,
            },
    {
        let n = self.accounts.len();
        for i in 0..n
            invariant
                n == self.accounts@.len(),
                forall|j: int| 0 <= j < i ==> self.accounts@[j].id != c,
        {
            if self.accounts[i].id == c {
                return Some(i);
            }
        }
        None
    }

    /// Route one event: find the owning account, creating it with zero
    /// balances on first sight of the client, and apply the per-account
    /// state machine to it and the shared ledger.
    pub fn handle_tx(&mut self, e: &Event) -> (r: Result<(), AccountingError>)
        requires
            old(self).wf(),
            step_fits(old(self)@, *e),
        ensures
            final(self).wf(),
            final(self)@ == step(old(self)@, *e).state,
            result_matches(r, step(old(self)@, *e).result),
    {
        let c = e.client();
        let idx: usize;
        match self.find_account(c) {
            Some(i) => {
                proof {
                    lemma_accounts_map_index(self.accounts@, i as int);
                }
                idx = i;
            },
            None => {
                proof {
                    lemma_accounts_map_absent(self.accounts@, c);
                }
                self.accounts.push(Account::new(c));
                idx = self.accounts.len() - 1;
                proof {
                    assert(self.accounts@.drop_last() =~= old(self).accounts@);
                }
            },
        }
        let ghost mid = self.accounts@;
        proof {
            lemma_accounts_map_index(mid, idx as int);
            lemma_accounts_map_remove(mid, idx as int);
        }
        let mut acc = self.accounts.remove(idx);
        let r = acc.handle_tx(&mut self.ledger, e);
        self.accounts.push(acc);
        proof {
            assert(self.accounts@.drop_last() =~= mid.remove(idx as int));
            assert(accounts_map(self.accounts@) =~= accounts_map(mid).insert(c, acc@));
            assert(accounts_map(mid) =~= old(self)@.accounts.insert(
                c,
                account_or_new(old(self)@, c),
            ));
            assert(self@ =~= step(old(self)@, *e).state);
        }
        r
    }

    /// Process a whole finite stream in arrival order, swallowing per-event
    /// rejections, and assemble the final snapshot: one entry per client
    /// ever seen, in ascending client order, each with its exact balances
    /// and lock state.
    pub fn process_txs(self, events: &Vec<Event>) -> (res: Vec<(ClientId, AccountingResult)>)
        requires
            self.wf(),
            run_fits(self@, events@),
            totals_fit(run(self@, events@)),
        ensures
            ({
                let m = run(self@, events@);
                &&& forall|k: int, l: int| 0 <= k < l < res@.len() ==> res@[k].0 < res@[l].0
                &&& forall|k: int|
                    0 <= k < res@.len() ==> m.accounts.dom().contains((#[trigger] res@[k]).0)
                        && result_reflects(res@[k].1, m.accounts[res@[k].0])
                &&& forall|c: ClientId| #[trigger]
                    m.accounts.dom().contains(c) ==> exists|k: int|
                        0 <= k < res@.len() && (#[trigger] res@[k]).0 == c
            }),
    {
        let mut eng = self;
        let ghost s0 = eng@;
        proof {
            assert(events@.skip(0) =~= events@);
            assert(events@.take(0) =~= Seq::<Event>::empty());
        }
        let n = events.len();
        for i in 0..n
            invariant
                n == events@.len(),
                eng.wf(),
                eng@ == run(s0, events@.take(i as int)),
                run_fits(eng@, events@.skip(i as int)),
        {
            proof {
                assert(events@.skip(i as int).len() > 0);
                assert(events@.skip(i as int)[0] == events@[i as int]);
                assert(events@.skip(i as int).drop_first() =~= events@.skip(i as int + 1));
            }
            let _ = eng.handle_tx(&events[i]);
            proof {
                lemma_run_snoc(s0, events@.take(i as int), events@[i as int]);
                assert(events@.take(i as int).push(events@[i as int]) =~= events@.take(
                    i as int + 1,
                ));
            }
        }
        proof {
            assert(events@.take(n as int) =~= events@);
        }
        let ghost m = run(s0, events@);
        let mut res: Vec<(ClientId, AccountingResult)> = Vec::new();
        let mut c: u32 = 0;
        while c < 65536
            invariant
                eng.wf(),
                eng@ == m,
                totals_fit(m),
                c <= 65536,
                forall|k: int, l: int| 0 <= k < l < res@.len() ==> res@[k].0 < res@[l].0,
                forall|k: int|
                    0 <= k < res@.len() ==> ((#[trigger] res@[k]).0 as u32) < c
                        && m.accounts.dom().contains(res@[k].0) && result_reflects(
                        res@[k].1,
                        m.accounts[res@[k].0],
                    ),
                forall|id: ClientId|
                    (id as u32) < c && #[trigger] m.accounts.dom().contains(id) ==> exists|k: int|
                        0 <= k < res@.len() && (#[trigger] res@[k]).0 == id,
            decreases 65536 - c,
        {
            let cid = c as u16;
            match eng.find_account(cid) {
                Some(i) => {
                    proof {
                        lemma_accounts_map_index(eng.accounts@, i as int);
                        assert(m.accounts.dom().contains(cid));
                        assert(i128_fits(m.accounts[cid].available + m.accounts[cid].held));
                    }
                    let a = eng.accounts[i];
                    let total = a.available + a.held;
                    let ghost prev = res@;
                    res.push(
                        (
                            a.id,
                            AccountingResult {
                                available: a.available,
                                held: a.held,
                                total,
                                locked: a.locked,
                            },
                        ),
                    );
                    proof {
                        assert(res@[res@.len() - 1].0 == cid);
                        assert forall|id: ClientId|
                            (id as u32) < c + 1 && #[trigger] m.accounts.dom().contains(
                                id,
                            ) implies exists|k: int|
                            0 <= k < res@.len() && (#[trigger] res@[k]).0 == id by {
                            if (id as u32) < c {
                                let k = choose|k: int|
                                    0 <= k < prev.len() && (#[trigger] prev[k]).0 == id;
                                assert(res@[k].0 == id);
                            } else {
                                assert(id == cid);
                                assert(res@[res@.len() - 1].0 == id);
                            }
                        }
                    }
                },
                None => {
                    proof {
                        lemma_accounts_map_absent(eng.accounts@, cid);
                        assert(!m.accounts.dom().contains(cid));
                    }
                },
            }
            c = c + 1;
        }
        res
    }
}

/// One transaction amount's largest magnitude: amounts are `i64` units.
pub open spec fn amount_bound() -> int {
    0x8000_0000_0000_0000
}

/// Every balance of every account lies within `b` of zero.
pub open spec fn balances_bounded(s: EngineModel, b: int) -> bool {
    forall|c: ClientId| #[trigger]
        s.accounts.dom().contains(c) ==> -b <= s.accounts[c].available <= b && -b
            <= s.accounts[c].held <= b
}

/// One step moves each balance by at most one transaction amount, so a step
/// from a state with headroom fits, and widens the bound by one amount.
proof fn lemma_step_bounded(s: EngineModel, e: Event, b: int)
    requires
        balances_bounded(s, b),
        b >= 0,
        b + amount_bound() <= i128::MAX,
    ensures
        step_fits(s, e),
        balances_bounded(step(s, e).state, b + amount_bound()),
{
    let c = client_of(e);
    let a = account_or_new(s, c);
    assert(-b <= a.available <= b && -b <= a.held <= b);
    let o = crate::model::account_step(a, s.ledger, c, e);
    assert(-(b + amount_bound()) <= o.account.available <= b + amount_bound());
    assert(-(b + amount_bound()) <= o.account.held <= b + amount_bound());
    assert forall|x: ClientId| #[trigger]
        step(s, e).state.accounts.dom().contains(x) implies -(b + amount_bound()) <= step(
        s,
        e,
    ).state.accounts[x].available <= b + amount_bound() && -(b + amount_bound()) <= step(
        s,
        e,
    ).state.accounts[x].held <= b + amount_bound() by {
        if x != c {
            assert(s.accounts.dom().contains(x));
        }
    }
}

/// Bounded balances make a whole stream fit, the bound growing by one
/// amount per event.
proof fn lemma_run_fits_bounded(s: EngineModel, es: Seq<Event>, b: int)
    requires
        balances_bounded(s, b),
        b >= 0,
        b + es.len() * amount_bound() <= i128::MAX,
    ensures
        run_fits(s, es),
        balances_bounded(run(s, es), b + es.len() * amount_bound()),
    decreases es.len(),
{
    if es.len() == 0 {
    } else {
        assert(b + amount_bound() <= b + es.len() * amount_bound());
        lemma_step_bounded(s, es[0], b);
        assert((b + amount_bound()) + (es.len() - 1) * amount_bound() == b + es.len()
            * amount_bound());
        lemma_run_fits_bounded(step(s, es[0]).state, es.drop_first(), b + amount_bound());
    }
}

/// Any stream a fresh engine could be handed in practice is safe: its
/// arithmetic fits and every final total is representable, so the
/// preconditions of `process_txs` hold. The length bound leaves the
/// balances astronomically far from the representable edge.
pub proof fn lemma_fresh_run_fits(es: Seq<Event>)
    requires
        es.len() <= 0x4000_0000_0000_0000,
    ensures
        run_fits(EngineModel::initial(), es),
        totals_fit(run(EngineModel::initial(), es)),
{
    let s0 = EngineModel::initial();
    assert(balances_bounded(s0, 0));
    assert(es.len() * amount_bound() <= 0x4000_0000_0000_0000 * amount_bound());
    lemma_run_fits_bounded(s0, es, 0);
    let m = run(s0, es);
    assert forall|c: ClientId| #[trigger] m.accounts.dom().contains(c) implies i128_fits(
        m.accounts[c].available + m.accounts[c].held,
    ) by {
        assert(-(es.len() * amount_bound()) <= m.accounts[c].available <= es.len()
            * amount_bound());
    }
}

/// Appending one event to a stream runs the stream, then the event.
pub proof fn lemma_run_snoc(s: EngineModel, es: Seq<Event>, e: Event)
    ensures
        run(s, es.push(e)) == step(run(s, es), e).state,
    decreases es.len(),
{
    let s1 = step(s, es.push(e)[0]).state;
    if es.len() == 0 {
        assert(es.push(e).drop_first() =~= Seq::<Event>::empty());
        assert(es.push(e)[0] == e);
        assert(run(s1, Seq::<Event>::empty()) == s1);
    } else {
        assert(es.push(e)[0] == es[0]);
        assert(es.push(e).drop_first() =~= es.drop_first().push(e));
        lemma_run_snoc(step(s, es[0]).state, es.drop_first(), e);
        assert(run(s, es.push(e)) == run(step(s, es[0]).state, es.drop_first().push(e)));
        assert(run(s, es) == run(step(s, es[0]).state, es.drop_first()));
    }
}

} // verus!
