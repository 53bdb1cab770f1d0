use ticket_ledger::principal::Principal;
use ticket_ledger::tickets::{MintTicketRequest, Ticket, TicketError, TicketLedger};
use ticket_ledger::token::generate_token_id;

fn who(b: u8) -> Principal {
    Principal::from_bytes(vec![b, 0xAB, b])
}

fn request(name: &str) -> MintTicketRequest {
    MintTicketRequest { event_name: name.to_string(), metadata: None }
}

fn ids(tickets: &[Ticket]) -> Vec<u64> {
    tickets.iter().map(|t| t.id).collect()
}

#[test]
fn expo_mint_transfer_scenario() {
    let mut ledger = TicketLedger::new();
    let (ann, ben) = (who(1), who(2));
    let t = ledger.mint_ticket(&ann, request("Expo"), 1_000).unwrap();
    assert_eq!(t.id, 1);
    assert_eq!(t.token_id, "VRN-00000001");
    assert_eq!(t.owner.to_bytes(), ann.to_bytes());
    assert_eq!(t.event_name, "Expo");
    assert_eq!(t.minted_at, 1_000);

    let moved = ledger.transfer_ticket(&ann, 1, &ben).unwrap();
    assert_eq!(moved.owner.to_bytes(), ben.to_bytes());
    assert_eq!(ledger.get_ticket(1).unwrap().owner.to_bytes(), ben.to_bytes());
    assert!(ledger.get_tickets_by_owner(&ann).is_empty());
    assert_eq!(ids(&ledger.get_tickets_by_owner(&ben)), vec![1]);
    assert_eq!(ledger.total_tickets(), 1);
}

#[test]
fn get_on_empty_store_is_not_found() {
    let ledger = TicketLedger::new();
    assert_eq!(ledger.get_ticket(999).unwrap_err(), TicketError::NotFound);
    assert_eq!(ledger.get_ticket(0).unwrap_err(), TicketError::NotFound);
    assert_eq!(ledger.total_tickets(), 0);
    assert!(ledger.list_all_tickets().is_empty());
}

#[test]
fn replayed_transfer_is_unauthorized() {
    let mut ledger = TicketLedger::new();
    let (ann, ben, cy, dee) = (who(1), who(2), who(3), who(4));
    ledger.mint_ticket(&ann, request("Expo"), 5).unwrap();
    ledger.transfer_ticket(&ann, 1, &ben).unwrap();
    ledger.transfer_ticket(&ben, 1, &dee).unwrap();
    assert_eq!(ledger.transfer_ticket(&ben, 1, &cy).unwrap_err(), TicketError::Unauthorized);
    assert_eq!(ledger.transfer_ticket(&ann, 1, &cy).unwrap_err(), TicketError::Unauthorized);
    assert_eq!(ledger.get_ticket(1).unwrap().owner.to_bytes(), dee.to_bytes());
    assert!(ledger.get_tickets_by_owner(&cy).is_empty());
    assert_eq!(ids(&ledger.get_tickets_by_owner(&dee)), vec![1]);
}

#[test]
fn event_name_validation() {
    let mut ledger = TicketLedger::new();
    let p = who(7);
    for bad in ["", " ", "\t\n ", "\u{a0}\u{3000}"] {
        assert_eq!(ledger.mint_ticket(&p, request(bad), 0).unwrap_err(), TicketError::InvalidEventName);
    }
    let long = "x".repeat(65);
    assert_eq!(ledger.mint_ticket(&p, request(&long), 0).unwrap_err(), TicketError::InvalidEventName);
    assert_eq!(ledger.total_tickets(), 0);
    assert!(ledger.get_my_tickets(&p).is_empty());

    let exact = "y".repeat(64);
    let t = ledger.mint_ticket(&p, request(&exact), 0).unwrap();
    assert_eq!(t.id, 1);
    assert_eq!(t.event_name, exact);
}

#[test]
fn event_name_limit_counts_characters() {
    let mut ledger = TicketLedger::new();
    let p = who(8);
    let wide = "é".repeat(64);
    assert!(ledger.mint_ticket(&p, request(&wide), 0).is_ok());
    let wider = "é".repeat(65);
    assert_eq!(ledger.mint_ticket(&p, request(&wider), 0).unwrap_err(), TicketError::InvalidEventName);
    assert!(ledger.mint_ticket(&p, request("  Expo  "), 0).is_ok());
}

#[test]
fn minted_ticket_is_fetched_back_unchanged() {
    let mut ledger = TicketLedger::new();
    let p = who(9);
    let req = MintTicketRequest { event_name: "Gala".to_string(), metadata: Some("row 4".to_string()) };
    let t = ledger.mint_ticket(&p, req, 42).unwrap();
    let got = ledger.get_ticket(t.id).unwrap();
    assert_eq!(got.id, t.id);
    assert_eq!(got.event_name, t.event_name);
    assert_eq!(got.owner.to_bytes(), t.owner.to_bytes());
    assert_eq!(got.minted_at, t.minted_at);
    assert_eq!(got.token_id, t.token_id);
    assert_eq!(got.metadata, Some("row 4".to_string()));
}

#[test]
fn ids_are_allocated_once_each() {
    let mut ledger = TicketLedger::new();
    let (a, b) = (who(1), who(2));
    let mut seen = Vec::new();
    for i in 0..5u64 {
        let owner = if i % 2 == 0 { &a } else { &b };
        seen.push(ledger.mint_ticket(owner, request("Fair"), i).unwrap().id);
        let _ = ledger.mint_ticket(owner, request(""), i);
    }
    assert_eq!(seen, vec![1, 2, 3, 4, 5]);
    assert_eq!(ledger.total_tickets(), 5);
    assert_eq!(ids(&ledger.list_all_tickets()), vec![1, 2, 3, 4, 5]);
}

#[test]
fn index_follows_owners() {
    let mut ledger = TicketLedger::new();
    let (a, b, c) = (who(1), who(2), who(3));
    ledger.mint_ticket(&a, request("One"), 0).unwrap();
    ledger.mint_ticket(&b, request("Two"), 0).unwrap();
    ledger.mint_ticket(&a, request("Three"), 0).unwrap();
    assert_eq!(ids(&ledger.get_my_tickets(&a)), vec![1, 3]);
    assert_eq!(ids(&ledger.get_tickets_by_owner(&b)), vec![2]);

    ledger.transfer_ticket(&a, 1, &b).unwrap();
    assert_eq!(ids(&ledger.get_tickets_by_owner(&a)), vec![3]);
    assert_eq!(ids(&ledger.get_tickets_by_owner(&b)), vec![2, 1]);
    assert!(ledger.get_tickets_by_owner(&c).is_empty());
    for t in ledger.list_all_tickets() {
        let listed = ids(&ledger.get_tickets_by_owner(&t.owner));
        assert_eq!(listed.iter().filter(|&&x| x == t.id).count(), 1);
        for other in [&a, &b, &c] {
            if other.to_bytes() != t.owner.to_bytes() {
                assert!(!ids(&ledger.get_tickets_by_owner(other)).contains(&t.id));
            }
        }
    }
}

#[test]
fn transfer_of_missing_ticket_is_not_found() {
    let mut ledger = TicketLedger::new();
    let (a, b) = (who(1), who(2));
    assert_eq!(ledger.transfer_ticket(&a, 1, &b).unwrap_err(), TicketError::NotFound);
    ledger.mint_ticket(&a, request("Expo"), 0).unwrap();
    assert_eq!(ledger.transfer_ticket(&a, 0, &b).unwrap_err(), TicketError::NotFound);
    assert_eq!(ledger.transfer_ticket(&a, 2, &b).unwrap_err(), TicketError::NotFound);
    assert_eq!(ids(&ledger.get_tickets_by_owner(&a)), vec![1]);
}

#[test]
fn transfer_by_stranger_changes_nothing() {
    let mut ledger = TicketLedger::new();
    let (a, b) = (who(1), who(2));
    ledger.mint_ticket(&a, request("Expo"), 0).unwrap();
    assert_eq!(ledger.transfer_ticket(&b, 1, &b).unwrap_err(), TicketError::Unauthorized);
    assert_eq!(ledger.get_ticket(1).unwrap().owner.to_bytes(), a.to_bytes());
    assert_eq!(ids(&ledger.get_tickets_by_owner(&a)), vec![1]);
    assert!(ledger.get_tickets_by_owner(&b).is_empty());
}

#[test]
fn transfer_to_self_keeps_one_entry() {
    let mut ledger = TicketLedger::new();
    let a = who(1);
    ledger.mint_ticket(&a, request("One"), 0).unwrap();
    ledger.mint_ticket(&a, request("Two"), 0).unwrap();
    ledger.transfer_ticket(&a, 1, &a).unwrap();
    assert_eq!(ids(&ledger.get_tickets_by_owner(&a)), vec![2, 1]);
}

#[test]
fn token_codes_are_padded_uppercase_hex() {
    assert_eq!(generate_token_id(0), "VRN-00000000");
    assert_eq!(generate_token_id(1), "VRN-00000001");
    assert_eq!(generate_token_id(255), "VRN-000000FF");
    assert_eq!(generate_token_id(0xDEADBEEF), "VRN-DEADBEEF");
    assert_eq!(generate_token_id(0x1_0000_0000), "VRN-100000000");
    assert_eq!(generate_token_id(u64::MAX), "VRN-FFFFFFFFFFFFFFFF");
}

#[test]
fn rebuilt_ledger_resumes_counter_and_index() {
    let mut ledger = TicketLedger::new();
    let (a, b) = (who(1), who(2));
    ledger.mint_ticket(&a, request("One"), 0).unwrap();
    ledger.mint_ticket(&b, request("Two"), 0).unwrap();
    ledger.mint_ticket(&a, request("Three"), 0).unwrap();
    ledger.transfer_ticket(&a, 1, &b).unwrap();

    let mut restored = TicketLedger::from_store(ledger.list_all_tickets()).unwrap();
    assert_eq!(restored.total_tickets(), 3);
    assert_eq!(ids(&restored.get_tickets_by_owner(&a)), vec![3]);
    assert_eq!(ids(&restored.get_tickets_by_owner(&b)), vec![1, 2]);
    let next = restored.mint_ticket(&a, request("Four"), 0).unwrap();
    assert_eq!(next.id, 4);
    assert_eq!(next.token_id, "VRN-00000004");
}

#[test]
fn rebuild_refuses_gaps() {
    let mut ledger = TicketLedger::new();
    let a = who(1);
    ledger.mint_ticket(&a, request("One"), 0).unwrap();
    ledger.mint_ticket(&a, request("Two"), 0).unwrap();
    let mut all = ledger.list_all_tickets();
    all.remove(0);
    assert!(TicketLedger::from_store(all).is_none());
    assert_eq!(TicketLedger::from_store(Vec::new()).unwrap().total_tickets(), 0);
}
