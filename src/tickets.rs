use vstd::prelude::*;
use vstd::seq_lib::lemma_seq_contains_after_push;

use crate::principal::Principal;
use crate::text::{check_name, copy_text, valid_name};
use crate::token::{generate_token_id, token_code};

verus! {

broadcast use {vstd::seq_lib::group_seq_properties, lemma_seq_contains_after_push};

/// Longest event name accepted at mint, in characters.
pub const MAX_EVENT_NAME: usize = 64;

/// A minted ticket.
#[derive(Clone, Debug)]
pub struct Ticket {
    pub id: u64,
    pub event_name: String,
    pub owner: Principal,
    pub minted_at: u64,
    pub token_id: String,
    pub metadata: Option<String>,
}

/// What a ticket holds, as plain values.
pub struct TicketView {
    pub id: u64,
    pub event_name: Seq<char>,
    pub owner: Seq<u8>,
    pub minted_at: u64,
    pub token_id: Seq<char>,
    pub metadata: Option<Seq<char>>,
}

pub open spec fn text_view(o: Option<String>) -> Option<Seq<char>> {
    match o {
        Some(s) => Some(s@),
        None => None,
    }
}

impl View for Ticket {
    type V = TicketView;

    open spec fn view(&self) -> TicketView {
        TicketView {
            id: self.id,
            event_name: self.event_name@,
            owner: self.owner@,
            minted_at: self.minted_at,
            token_id: self.token_id@,
            metadata: text_view(self.metadata),
        }
    }
}

impl Ticket {
    /// A copy of this ticket.
    pub fn duplicate(&self) -> (r: Ticket)
        ensures
            r@ == self@,
    {
        Ticket {
            id: self.id,
            event_name: self.event_name.clone(),
            owner: self.owner.duplicate(),
            minted_at: self.minted_at,
            token_id: self.token_id.clone(),
            metadata: copy_text(&self.metadata),
        }
    }
}

/// What a caller asks to mint.
#[derive(Clone, Debug)]
pub struct MintTicketRequest {
    pub event_name: String,
    pub metadata: Option<String>,
}

#[derive(PartialEq, Eq, Structural, Debug, Clone, Copy)]
pub enum TicketError {
    Unauthorized,
    InvalidEventName,
    NotFound,
    TransferFailed,
}

/// Whether `s` is accepted as an event name: not blank, at most 64 characters.
pub open spec fn valid_event_name(s: Seq<char>) -> bool {
    valid_name(s, MAX_EVENT_NAME as nat)
}

/// `ids` without `id`.
pub open spec fn without(ids: Seq<u64>, id: u64) -> Seq<u64> {
    ids.filter(other_than(id))
}

pub open spec fn other_than(id: u64) -> spec_fn(u64) -> bool {
    |x: u64| x != id
}

/// The index entry of `p` after ticket `id` moved from `from` to `to`:
/// taken out of the old owner's entry, then appended to the new owner's.
pub open spec fn after_transfer(ids: Seq<u64>, p: Seq<u8>, from: Seq<u8>, to: Seq<u8>, id: u64) -> Seq<u64> {
    let kept = if p == from { without(ids, id) } else { ids };
    if p == to { kept.push(id) } else { kept }
}

/// The index entry of `p` after ticket `id` was minted for `owner`.
pub open spec fn after_mint(ids: Seq<u64>, p: Seq<u8>, owner: Seq<u8>, id: u64) -> Seq<u64> {
    if p == owner { ids.push(id) } else { ids }
}

/// Tickets numbered 1, 2, 3, ... in order: what a store holds.
pub open spec fn dense(s: Seq<TicketView>) -> bool {
    forall|i: int| 0 <= i < s.len() ==> #[trigger] s[i].id == i + 1
}

/// The ids of the tickets in `s` that `p` owns, in the order of `s`.
pub open spec fn owned_ids(s: Seq<TicketView>, p: Seq<u8>) -> Seq<u64>
    decreases s.len(),
{
    if s.len() == 0 {
        seq![]
    } else {
        after_mint(owned_ids(s.drop_last(), p), p, s.last().owner, s.last().id)
    }
}

pub open spec fn views(tickets: Seq<Ticket>) -> Seq<TicketView> {
    tickets.map_values(|t: Ticket| t@)
}

/// What `without` keeps: every other id, and no repeats where there were none.
pub proof fn lemma_without(s: Seq<u64>, id: u64)
    ensures
        forall|x: u64| #[trigger] without(s, id).contains(x) <==> (s.contains(x) && x != id),
        s.no_duplicates() ==> without(s, id).no_duplicates(),
    decreases s.len(),
{
    if s.len() == 0 {
        reveal(Seq::filter);
        assert(without(s, id) =~= s);
    } else {
        let t = s.drop_last();
        let e = s.last();
        lemma_without(t, id);
        assert(s =~= t.push(e));
        t.lemma_filter_push(e, other_than(id));
        assert forall|x: u64| #[trigger] without(s, id).contains(x) <==> (s.contains(x) && x != id) by {
            lemma_seq_contains_after_push(t, e, x);
            if e != id {
                assert(without(s, id) == without(t, id).push(e));
                lemma_seq_contains_after_push(without(t, id), e, x);
            } else {
                assert(without(s, id) == without(t, id));
            }
        }
        if s.no_duplicates() {
            assert(t.no_duplicates());
            assert(!t.contains(e));
            if e != id {
                assert(without(s, id) == without(t, id).push(e));
                assert(!without(t, id).contains(e));
            } else {
                assert(without(s, id) == without(t, id));
            }
        }
    }
}

proof fn lemma_push_unique(s: Seq<u64>, e: u64)
    requires
        s.no_duplicates(),
        !s.contains(e),
    ensures
        s.push(e).no_duplicates(),
{
    let t = s.push(e);
    assert forall|i: int, j: int| 0 <= i < t.len() && 0 <= j < t.len() && i != j implies t[i] != t[j] by {
        if i < s.len() && j < s.len() {
            assert(t[i] == s[i] && t[j] == s[j]);
        } else if i < s.len() {
            assert(t[i] == s[i]);
            assert(s.contains(s[i]));
        } else {
            assert(t[j] == s[j]);
            assert(s.contains(s[j]));
        }
    }
}

/// The ticket store, the owner index and the id allocator, kept consistent.
pub struct TicketLedger {
    tickets: Vec<Ticket>,
    holders: Vec<Principal>,
    holdings: Vec<Vec<u64>>,
    next_id: u64,
}

impl TicketLedger {
    /// The next id the allocator hands out.
    pub closed spec fn next_id(&self) -> u64 {
        self.next_id
    }

    /// The stored tickets in ascending id order; the ticket with id `k` is at `k - 1`.
    pub closed spec fn store(&self) -> Seq<TicketView> {
        self.tickets@.map_values(|t: Ticket| t@)
    }

    pub open spec fn has_ticket(&self, id: u64) -> bool {
        1 <= id < self.next_id()
    }

    pub open spec fn ticket(&self, id: u64) -> TicketView {
        self.store()[id - 1]
    }

    /// Number of tickets minted so far.
    pub open spec fn minted(&self) -> nat {
        (self.next_id() - 1) as nat
    }

    closed spec fn keys_unique(&self) -> bool {
        &&& self.holders@.len() == self.holdings@.len()
        &&& forall|i: int, j: int|
            0 <= i < self.holders@.len() && 0 <= j < self.holders@.len() && i != j
                ==> #[trigger] self.holders@[i]@ != #[trigger] self.holders@[j]@
    }

    closed spec fn slot(&self, p: Seq<u8>) -> int {
        if exists|k: int| 0 <= k < self.holders@.len() && #[trigger] self.holders@[k]@ == p {
            choose|k: int| 0 <= k < self.holders@.len() && #[trigger] self.holders@[k]@ == p
        } else {
            -1
        }
    }

    /// The ids that the owner index lists for `p`, in order of insertion.
    pub closed spec fn index(&self, p: Seq<u8>) -> Seq<u64> {
        let k = self.slot(p);
        if 0 <= k { self.holdings@[k]@ } else { seq![] }
    }

    /// The store and the index agree: each ticket is listed under its owner
    /// and under nobody else, once, and the counter is past every id.
    pub closed spec fn wf(&self) -> bool {
        &&& self.keys_unique()
        &&& self.tickets@.len() + 1 == self.next_id
        &&& forall|i: int| 0 <= i < self.tickets@.len() ==> #[trigger] self.tickets@[i].id == i + 1
        &&& forall|p: Seq<u8>| #[trigger] self.index(p).no_duplicates()
        &&& forall|p: Seq<u8>, id: u64| #[trigger] self.index(p).contains(id)
            ==> 1 <= id < self.next_id && self.tickets@[id - 1].owner@ == p
        &&& forall|i: int| 0 <= i < self.tickets@.len()
            ==> self.index(#[trigger] self.tickets@[i].owner@).contains((i + 1) as u64)
    }

    proof fn lemma_slot(&self, k: int)
        requires
            self.keys_unique(),
            0 <= k < self.holders@.len(),
        ensures
            self.slot(self.holders@[k]@) == k,
            self.index(self.holders@[k]@) == self.holdings@[k]@,
    {
        let p = self.holders@[k]@;
        assert(exists|j: int| 0 <= j < self.holders@.len() && #[trigger] self.holders@[j]@ == p);
    }

    proof fn lemma_same_index(&self, other: &TicketLedger)
        requires
            self.holders == other.holders,
            self.holdings == other.holdings,
        ensures
            forall|p: Seq<u8>| #[trigger] self.index(p) == other.index(p),
    {
    }

    proof fn lemma_no_slot(&self, p: Seq<u8>)
        requires
            forall|k: int| 0 <= k < self.holders@.len() ==> #[trigger] self.holders@[k]@ != p,
        ensures
            self.index(p) == Seq::<u64>::empty(),
    {
    }

    fn find_slot(&self, p: &Principal) -> (r: Option<usize>)
        requires
            self.keys_unique(),
        ensures
            match r {
                Some(k) => k < self.holders@.len() && self.holders@[k as int]@ == p@,
                None => forall|k: int| 0 <= k < self.holders@.len() ==> #[trigger] self.holders@[k]@ != p@,
            },
    {
        let mut k: usize = 0;
        while k < self.holders.len()
            invariant
                0 <= k <= self.holders@.len(),
                forall|j: int| 0 <= j < k ==> #[trigger] self.holders@[j]@ != p@,
            decreases self.holders@.len() - k,
        {
            if self.holders[k].same_as(p) {
                return Some(k);
            }
            k = k + 1;
        }
        None
    }

    /// Appends `id` to the index entry of `owner`.
    fn add_holding(&mut self, owner: &Principal, id: u64)
        requires
            old(self).keys_unique(),
        ensures
            final(self).keys_unique(),
            final(self).tickets == old(self).tickets,
            final(self).next_id == old(self).next_id,
            forall|p: Seq<u8>| #[trigger] final(self).index(p)
                == if p == owner@ { old(self).index(p).push(id) } else { old(self).index(p) },
    {
        match self.find_slot(owner) {
            Some(k) => {
                proof {
                    old(self).lemma_slot(k as int);
                }
                self.holdings[k].push(id);
                proof {
                    self.lemma_slot(k as int);
                    assert forall|p: Seq<u8>| #[trigger] self.index(p)
                        == if p == owner@ { old(self).index(p).push(id) } else { old(self).index(p) } by {
                        if p != owner@ {
                            if exists|j: int| 0 <= j < self.holders@.len() && #[trigger] self.holders@[j]@ == p {
                                let j = choose|j: int| 0 <= j < self.holders@.len() && #[trigger] self.holders@[j]@ == p;
                                self.lemma_slot(j);
                                old(self).lemma_slot(j);
                            }
                        }
                    }
                }
            },
            None => {
                proof {
                    old(self).lemma_no_slot(owner@);
                }
                self.holders.push(owner.duplicate());
                self.holdings.push(vec![id]);
                proof {
                    let n = old(self).holders@.len() as int;
                    self.lemma_slot(n);
                    assert(self.holdings@[n]@ =~= seq![id]);
                    assert(Seq::<u64>::empty().push(id) =~= seq![id]);
                    assert forall|p: Seq<u8>| #[trigger] self.index(p)
                        == if p == owner@ { old(self).index(p).push(id) } else { old(self).index(p) } by {
                        if p != owner@ {
                            if exists|j: int| 0 <= j < old(self).holders@.len() && #[trigger] old(self).holders@[j]@ == p {
                                let j = choose|j: int| 0 <= j < old(self).holders@.len() && #[trigger] old(self).holders@[j]@ == p;
                                self.lemma_slot(j);
                                old(self).lemma_slot(j);
                            } else {
                                assert forall|k: int| 0 <= k < self.holders@.len() implies #[trigger] self.holders@[k]@ != p by {
                                    if k < n {
                                        assert(old(self).holders@[k] == self.holders@[k]);
                                    }
                                }
                                self.lemma_no_slot(p);
                                old(self).lemma_no_slot(p);
                            }
                        }
                    }
                }
            },
        }
    }

    /// Takes `id` out of the index entry of `owner`.
    fn remove_holding(&mut self, owner: &Principal, id: u64)
        requires
            old(self).keys_unique(),
        ensures
            final(self).keys_unique(),
            final(self).tickets == old(self).tickets,
            final(self).next_id == old(self).next_id,
            forall|p: Seq<u8>| #[trigger] final(self).index(p)
                == if p == owner@ { without(old(self).index(p), id) } else { old(self).index(p) },
    {
        match self.find_slot(owner) {
            Some(k) => {
                proof {
                    old(self).lemma_slot(k as int);
                }
                let kept = ids_without(&self.holdings[k], id);
                self.holdings[k] = kept;
                proof {
                    self.lemma_slot(k as int);
                    assert forall|p: Seq<u8>| #[trigger] self.index(p)
                        == if p == owner@ { without(old(self).index(p), id) } else { old(self).index(p) } by {
                        if p != owner@ {
                            if exists|j: int| 0 <= j < self.holders@.len() && #[trigger] self.holders@[j]@ == p {
                                let j = choose|j: int| 0 <= j < self.holders@.len() && #[trigger] self.holders@[j]@ == p;
                                self.lemma_slot(j);
                                old(self).lemma_slot(j);
                            }
                        }
                    }
                }
            },
            None => {
                proof {
                    old(self).lemma_no_slot(owner@);
                    reveal(Seq::filter);
                    assert(without(Seq::<u64>::empty(), id) =~= Seq::<u64>::empty());
                }
            },
        }
    }

    /// An empty ledger: no tickets, an empty index, the counter at 1.
    pub fn new() -> (r: TicketLedger)
        ensures
            r.wf(),
            r.next_id() == 1,
            r.store() == Seq::<TicketView>::empty(),
            forall|p: Seq<u8>| #[trigger] r.index(p) == Seq::<u64>::empty(),
    {
        let r = TicketLedger { tickets: Vec::new(), holders: Vec::new(), holdings: Vec::new(), next_id: 1 };
        proof {
            assert(r.store() =~= Seq::<TicketView>::empty());
            assert forall|p: Seq<u8>| #[trigger] r.index(p) == Seq::<u64>::empty() by {
                r.lemma_no_slot(p);
            }
        }
        r
    }

    /// Stores `ticket` under the next id and lists it under its owner.
    fn append_ticket(&mut self, ticket: Ticket)
        requires
            old(self).wf(),
            old(self).next_id() < u64::MAX,
            ticket.id == old(self).next_id(),
        ensures
            final(self).wf(),
            final(self).next_id() == old(self).next_id() + 1,
            final(self).store() == old(self).store().push(ticket@),
            forall|p: Seq<u8>| #[trigger] final(self).index(p) == after_mint(old(self).index(p), p, ticket.owner@, ticket.id),
    {
        let id = ticket.id;
        let owner = ticket.owner.duplicate();
        let ghost view = ticket@;
        self.next_id = id + 1;
        self.tickets.push(ticket);
        proof {
            self.lemma_same_index(old(self));
        }
        self.add_holding(&owner, id);
        proof {
            let o = old(self);
            assert(self.store() =~= o.store().push(view));
            assert forall|p: Seq<u8>| #[trigger] self.index(p).no_duplicates() by {
                if p == owner@ {
                    assert(!o.index(p).contains(id));
                    assert(self.index(p) == o.index(p).push(id));
                    lemma_push_unique(o.index(p), id);
                } else {
                    assert(self.index(p) == o.index(p));
                }
            }
            assert forall|p: Seq<u8>, x: u64| #[trigger] self.index(p).contains(x)
                implies 1 <= x < self.next_id && self.tickets@[x - 1].owner@ == p by {
                if !(p == owner@ && x == id) {
                    assert(o.index(p).contains(x));
                }
            }
            assert forall|i: int| 0 <= i < self.tickets@.len()
                implies self.index(#[trigger] self.tickets@[i].owner@).contains((i + 1) as u64) by {
                if i < o.tickets@.len() {
                    assert(self.tickets@[i] == o.tickets@[i]);
                    assert(o.index(o.tickets@[i].owner@).contains((i + 1) as u64));
                } else {
                    assert(self.tickets@[i].owner@ == owner@);
                    assert(self.index(owner@) == o.index(owner@).push(id));
                }
            }
        }
    }

    /// Mints a ticket for `caller`, stamped `minted_at`: validates the event
    /// name, allocates the next id, stores the ticket, then indexes it.
    pub fn mint_ticket(&mut self, caller: &Principal, request: MintTicketRequest, minted_at: u64) -> (r: Result<Ticket, TicketError>)
        requires
            old(self).wf(),
            old(self).next_id() < u64::MAX,
        ensures
            final(self).wf(),
            !valid_event_name(request.event_name@) ==> r == Err::<Ticket, TicketError>(TicketError::InvalidEventName)
                && *final(self) == *old(self),
            valid_event_name(request.event_name@) ==> r is Ok && ({
                let t = r->Ok_0;
                let id = old(self).next_id();
                &&& t@ == (TicketView {
                    id,
                    event_name: request.event_name@,
                    owner: caller@,
                    minted_at,
                    token_id: token_code(id),
                    metadata: text_view(request.metadata),
                })
                &&& final(self).next_id() == id + 1
                &&& final(self).store() == old(self).store().push(t@)
                &&& forall|p: Seq<u8>| #[trigger] final(self).index(p) == after_mint(old(self).index(p), p, caller@, id)
            }),
    {
        if !check_name(request.event_name.as_str(), MAX_EVENT_NAME) {
            return Err(TicketError::InvalidEventName);
        }
        let id = self.next_id;
        let ticket = Ticket {
            id,
            event_name: request.event_name,
            owner: caller.duplicate(),
            minted_at,
            token_id: generate_token_id(id),
            metadata: request.metadata,
        };
        let out = ticket.duplicate();
        self.append_ticket(ticket);
        Ok(out)
    }

    /// Moves ticket `ticket_id` from `caller`, who must own it, to `to`:
    /// the store first, then the old owner's index entry, then the new one's.
    pub fn transfer_ticket(&mut self, caller: &Principal, ticket_id: u64, to: &Principal) -> (r: Result<Ticket, TicketError>)
        requires
            old(self).wf(),
        ensures
            final(self).wf(),
            !old(self).has_ticket(ticket_id) ==> r == Err::<Ticket, TicketError>(TicketError::NotFound)
                && *final(self) == *old(self),
            old(self).has_ticket(ticket_id) && old(self).ticket(ticket_id).owner != caller@
                ==> r == Err::<Ticket, TicketError>(TicketError::Unauthorized) && *final(self) == *old(self),
            old(self).has_ticket(ticket_id) && old(self).ticket(ticket_id).owner == caller@ ==> r is Ok && ({
                let t = r->Ok_0;
                &&& t@ == (TicketView { owner: to@, ..old(self).ticket(ticket_id) })
                &&& final(self).next_id() == old(self).next_id()
                &&& final(self).store() == old(self).store().update(ticket_id - 1, t@)
                &&& forall|p: Seq<u8>| #[trigger] final(self).index(p)
                    == after_transfer(old(self).index(p), p, caller@, to@, ticket_id)
            }),
    {
        if ticket_id == 0 || ticket_id >= self.next_id {
            return Err(TicketError::NotFound);
        }
        let n = self.tickets.len();
        assert(ticket_id - 1 < n);
        let idx = (ticket_id - 1) as usize;
        assert(self.store()[idx as int] == self.tickets@[idx as int]@);
        if !self.tickets[idx].owner.same_as(caller) {
            return Err(TicketError::Unauthorized);
        }
        let mut ticket = self.tickets[idx].duplicate();
        ticket.owner = to.duplicate();
        let out = ticket.duplicate();
        self.tickets[idx] = ticket;
        assert(self.tickets@ == old(self).tickets@.update(idx as int, ticket));
        proof {
            self.lemma_same_index(old(self));
        }
        self.remove_holding(caller, ticket_id);
        self.add_holding(to, ticket_id);
        proof {
            let o = old(self);
            let id = ticket_id;
            assert forall|j: int| 0 <= j < self.tickets@.len()
                implies self.store()[j] == o.store().update(id - 1, out@)[j] by {
                if j != idx {
                    assert(self.tickets@[j] == o.tickets@[j]);
                }
            }
            assert(self.store() =~= o.store().update(id - 1, out@));
            assert forall|p: Seq<u8>| #[trigger] self.index(p).no_duplicates() by {
                lemma_without(o.index(p), id);
                let kept = if p == caller@ { without(o.index(p), id) } else { o.index(p) };
                assert(kept.no_duplicates());
                if p == to@ {
                    assert(!kept.contains(id));
                    assert(self.index(p) == kept.push(id));
                    lemma_push_unique(kept, id);
                } else {
                    assert(self.index(p) == kept);
                }
            }
            assert forall|p: Seq<u8>, x: u64| #[trigger] self.index(p).contains(x)
                implies 1 <= x < self.next_id && self.tickets@[x - 1].owner@ == p by {
                lemma_without(o.index(p), id);
                if !(p == to@ && x == id) {
                    assert(o.index(p).contains(x));
                }
            }
            assert forall|i: int| 0 <= i < self.tickets@.len()
                implies self.index(#[trigger] self.tickets@[i].owner@).contains((i + 1) as u64) by {
                if i != idx {
                    let q = o.tickets@[i].owner@;
                    assert(self.tickets@[i] == o.tickets@[i]);
                    assert(o.index(q).contains((i + 1) as u64));
                    lemma_without(o.index(q), id);
                }
            }
        }
        Ok(out)
    }

    /// The ticket with id `ticket_id`, or `NotFound`.
    pub fn get_ticket(&self, ticket_id: u64) -> (r: Result<Ticket, TicketError>)
        requires
            self.wf(),
        ensures
            self.has_ticket(ticket_id) ==> r is Ok && r->Ok_0@ == self.ticket(ticket_id),
            !self.has_ticket(ticket_id) ==> r == Err::<Ticket, TicketError>(TicketError::NotFound),
    {
        if ticket_id == 0 || ticket_id >= self.next_id {
            return Err(TicketError::NotFound);
        }
        let n = self.tickets.len();
        assert(ticket_id - 1 < n);
        let t = self.tickets[(ticket_id - 1) as usize].duplicate();
        Ok(t)
    }

    /// The tickets that the index lists for `owner`, in the index's order.
    pub fn get_tickets_by_owner(&self, owner: &Principal) -> (r: Vec<Ticket>)
        requires
            self.wf(),
        ensures
            r@.len() == self.index(owner@).len(),
            forall|j: int| 0 <= j < r@.len() ==> #[trigger] r@[j]@ == self.ticket(self.index(owner@)[j]),
    {
        let mut r: Vec<Ticket> = Vec::new();
        match self.find_slot(owner) {
            None => {
                proof {
                    self.lemma_no_slot(owner@);
                }
            },
            Some(k) => {
                proof {
                    self.lemma_slot(k as int);
                }
                let ids = &self.holdings[k];
                let n = self.tickets.len();
                let mut i: usize = 0;
                while i < ids.len()
                    invariant
                        self.wf(),
                        n == self.tickets@.len(),
                        ids@ == self.index(owner@),
                        0 <= i <= ids@.len(),
                        r@.len() == i,
                        forall|j: int| 0 <= j < i ==> #[trigger] r@[j]@ == self.ticket(ids@[j]),
                    decreases ids@.len() - i,
                {
                    let id = ids[i];
                    assert(self.index(owner@).contains(id));
                    assert(id - 1 < n);
                    r.push(self.tickets[(id - 1) as usize].duplicate());
                    i = i + 1;
                }
            },
        }
        r
    }

    /// The tickets of `caller`, as `get_tickets_by_owner` lists them.
    pub fn get_my_tickets(&self, caller: &Principal) -> (r: Vec<Ticket>)
        requires
            self.wf(),
        ensures
            r@.len() == self.index(caller@).len(),
            forall|j: int| 0 <= j < r@.len() ==> #[trigger] r@[j]@ == self.ticket(self.index(caller@)[j]),
    {
        self.get_tickets_by_owner(caller)
    }

    /// Every stored ticket, in ascending id order.
    pub fn list_all_tickets(&self) -> (r: Vec<Ticket>)
        requires
            self.wf(),
        ensures
            r@.len() == self.store().len(),
            forall|j: int| 0 <= j < r@.len() ==> #[trigger] r@[j]@ == self.store()[j],
    {
        let mut r: Vec<Ticket> = Vec::new();
        let mut i: usize = 0;
        while i < self.tickets.len()
            invariant
                0 <= i <= self.tickets@.len(),
                r@.len() == i,
                forall|j: int| 0 <= j < i ==> #[trigger] r@[j]@ == self.store()[j],
            decreases self.tickets@.len() - i,
        {
            r.push(self.tickets[i].duplicate());
            i = i + 1;
        }
        r
    }

    /// How many tickets have been minted: the counter less one.
    pub fn total_tickets(&self) -> (r: u64)
        requires
            self.wf(),
        ensures
            r == self.minted(),
    {
        self.next_id - 1
    }

    /// Rebuilds a ledger from its stored tickets: the counter resumes past the
    /// last id and the owner index is recomputed from each ticket's owner.
    /// Refused (`None`) unless the tickets are numbered 1, 2, 3, ... in order.
    pub fn from_store(tickets: Vec<Ticket>) -> (r: Option<TicketLedger>)
        ensures
            r is Some <==> dense(views(tickets@)) && tickets@.len() < u64::MAX,
            r is Some ==> ({
                let l = r->Some_0;
                &&& l.wf()
                &&& l.store() == views(tickets@)
                &&& l.next_id() == tickets@.len() + 1
                &&& forall|p: Seq<u8>| #[trigger] l.index(p) == owned_ids(views(tickets@), p)
            }),
    {
        let ghost vs = views(tickets@);
        let n = tickets.len();
        if n as u64 == u64::MAX {
            return None;
        }
        let mut i: usize = 0;
        while i < n
            invariant
                n == tickets@.len(),
                vs == views(tickets@),
                0 <= i <= n,
                forall|j: int| 0 <= j < i ==> #[trigger] vs[j].id == j + 1,
            decreases n - i,
        {
            if tickets[i].id != i as u64 + 1 {
                assert(vs[i as int].id != i + 1);
                return None;
            }
            i = i + 1;
        }
        let mut l = TicketLedger::new();
        let mut i: usize = 0;
        while i < n
            invariant
                n == tickets@.len(),
                n < u64::MAX,
                vs == views(tickets@),
                dense(vs),
                0 <= i <= n,
                l.wf(),
                l.next_id() == i + 1,
                l.store() == vs.subrange(0, i as int),
                forall|p: Seq<u8>| #[trigger] l.index(p) == owned_ids(vs.subrange(0, i as int), p),
            decreases n - i,
        {
            let t = tickets[i].duplicate();
            assert(t@ == vs[i as int]);
            assert(vs[i as int].id == i + 1);
            let ghost before = l;
            l.append_ticket(t);
            proof {
                let sub = vs.subrange(0, i + 1);
                assert(sub.drop_last() =~= vs.subrange(0, i as int));
                assert(l.store() =~= sub);
                assert forall|p: Seq<u8>| #[trigger] l.index(p) == owned_ids(sub, p) by {
                    assert(l.index(p) == after_mint(before.index(p), p, vs[i as int].owner, vs[i as int].id));
                }
            }
            i = i + 1;
        }
        assert(vs.subrange(0, n as int) =~= vs);
        Some(l)
    }

    /// What a ledger stores can be handed to `from_store` again: the
    /// tickets are numbered from 1 in order and the counter is one past them,
    /// so a ledger saved and rebuilt resumes with the same counter.
    pub proof fn lemma_store_reloads(&self)
        requires
            self.wf(),
        ensures
            dense(self.store()),
            self.store().len() + 1 == self.next_id(),
            self.store().len() < u64::MAX,
    {
    }

    /// Each index entry lists stored tickets of that principal only, each once.
    pub proof fn lemma_index_lists_owned_tickets(&self, p: Seq<u8>, id: u64)
        requires
            self.wf(),
        ensures
            self.index(p).no_duplicates(),
            self.index(p).contains(id) ==> self.has_ticket(id) && self.ticket(id).owner == p,
    {
        if self.index(p).contains(id) {
            assert(self.store()[id - 1] == self.tickets@[id - 1]@);
        }
    }

    /// Every stored ticket is listed in its owner's index entry and in no
    /// other principal's entry.
    pub proof fn lemma_index_matches_store(&self, id: u64, p: Seq<u8>)
        requires
            self.wf(),
            self.has_ticket(id),
        ensures
            self.index(self.ticket(id).owner).contains(id),
            p != self.ticket(id).owner ==> !self.index(p).contains(id),
    {
        let i = id - 1;
        assert(self.tickets@[i].owner@ == self.ticket(id).owner);
        assert(self.index(self.tickets@[i].owner@).contains((i + 1) as u64));
    }

    /// A ticket just stored by a mint is fetched back as it was returned.
    pub proof fn lemma_mint_then_get(before: &TicketLedger, after: &TicketLedger, t: TicketView)
        requires
            before.wf(),
            t.id == before.next_id(),
            after.next_id() == before.next_id() + 1,
            after.store() == before.store().push(t),
        ensures
            after.has_ticket(t.id),
            after.ticket(t.id) == t,
    {
        assert(before.store().len() == before.next_id() - 1);
    }

    /// After a transfer of ticket `id` from `a` to `b`, the ticket names `b`
    /// as owner and is listed under `b`, and no longer under `a`; `a` is then
    /// no owner, so a further transfer by `a` is refused as unauthorized.
    pub proof fn lemma_transfer_moves_ownership(
        before: &TicketLedger,
        after: &TicketLedger,
        id: u64,
        a: Seq<u8>,
        b: Seq<u8>,
    )
        requires
            before.wf(),
            before.has_ticket(id),
            before.ticket(id).owner == a,
            after.next_id() == before.next_id(),
            after.store() == before.store().update(id - 1, TicketView { owner: b, ..before.ticket(id) }),
            forall|p: Seq<u8>| #[trigger] after.index(p) == after_transfer(before.index(p), p, a, b, id),
        ensures
            after.has_ticket(id),
            after.ticket(id).owner == b,
            after.index(b).contains(id),
            a != b ==> !after.index(a).contains(id),
            a != b ==> after.ticket(id).owner != a,
    {
        assert(before.store().len() == before.next_id() - 1);
        assert(after.index(b) == after_transfer(before.index(b), b, a, b, id));
        assert(after.index(a) == after_transfer(before.index(a), a, a, b, id));
        lemma_without(before.index(a), id);
    }
}

/// One call's effect on the id allocator: a mint that handed out `id` took
/// the counter's value and advanced it by one; any other call left it alone.
pub open spec fn counter_step(before: TicketLedger, after: TicketLedger, id: Option<u64>) -> bool {
    match id {
        Some(v) => v == before.next_id() && after.next_id() == before.next_id() + 1,
        None => after.next_id() == before.next_id(),
    }
}

proof fn lemma_counter_grows(states: Seq<TicketLedger>, ids: Seq<Option<u64>>, i: int, j: int)
    requires
        states.len() == ids.len() + 1,
        forall|k: int| 0 <= k < ids.len() ==> counter_step(#[trigger] states[k], states[k + 1], ids[k]),
        0 <= i <= j <= ids.len(),
    ensures
        states[i].next_id() <= states[j].next_id(),
    decreases j - i,
{
    if i < j {
        lemma_counter_grows(states, ids, i, j - 1);
        assert(counter_step(states[j - 1], states[j], ids[j - 1]));
    }
}

/// Over any run of calls, the ids that mints hand out strictly increase, so
/// no id is ever handed out twice.
pub proof fn lemma_ids_never_repeat(states: Seq<TicketLedger>, ids: Seq<Option<u64>>, i: int, j: int)
    requires
        states.len() == ids.len() + 1,
        forall|k: int| 0 <= k < ids.len() ==> counter_step(#[trigger] states[k], states[k + 1], ids[k]),
        0 <= i < j < ids.len(),
        ids[i] is Some,
        ids[j] is Some,
    ensures
        ids[i]->Some_0 < ids[j]->Some_0,
{
    assert(counter_step(states[i], states[i + 1], ids[i]));
    assert(counter_step(states[j], states[j + 1], ids[j]));
    lemma_counter_grows(states, ids, i + 1, j);
}

/// A copy of `ids` without `id`, order kept.
fn ids_without(ids: &Vec<u64>, id: u64) -> (r: Vec<u64>)
    ensures
        r@ == without(ids@, id),
{
    let mut r: Vec<u64> = Vec::new();
    let mut i: usize = 0;
    while i < ids.len()
        invariant
            0 <= i <= ids@.len(),
            r@ == without(ids@.subrange(0, i as int), id),
        decreases ids@.len() - i,
    {
        proof {
            assert(ids@.subrange(0, i + 1) =~= ids@.subrange(0, i as int).push(ids@[i as int]));
            ids@.subrange(0, i as int).lemma_filter_push(ids@[i as int], other_than(id));
        }
        if ids[i] != id {
            r.push(ids[i]);
        }
        i = i + 1;
    }
    proof {
        assert(ids@.subrange(0, ids@.len() as int) =~= ids@);
    }
    r
}

} // verus!
