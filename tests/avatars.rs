use ticket_ledger::avatars::{AvatarError, AvatarRegistry, RegisterAvatarRequest};
use ticket_ledger::principal::Principal;

fn who(b: u8) -> Principal {
    Principal::from_bytes(vec![b; 4])
}

fn request(name: &str) -> RegisterAvatarRequest {
    RegisterAvatarRequest { name: name.to_string(), metadata: None }
}

#[test]
fn register_then_get() {
    let mut reg = AvatarRegistry::new();
    let a = who(1);
    let made = reg.register_avatar(&a, request("Nova"), 77).unwrap();
    assert_eq!(made.name, "Nova");
    assert_eq!(made.created_at, 77);
    assert_eq!(made.owner.to_bytes(), a.to_bytes());
    let got = reg.get_avatar(&a).unwrap();
    assert_eq!(got.name, "Nova");
    assert_eq!(reg.get_my_avatar(&a).unwrap().created_at, 77);
}

#[test]
fn second_registration_is_refused() {
    let mut reg = AvatarRegistry::new();
    let a = who(1);
    reg.register_avatar(&a, request("Nova"), 1).unwrap();
    assert_eq!(reg.register_avatar(&a, request("Other"), 2).unwrap_err(), AvatarError::AvatarAlreadyExists);
    assert_eq!(reg.get_avatar(&a).unwrap().name, "Nova");
    assert_eq!(reg.list_avatars().len(), 1);
}

#[test]
fn avatar_name_validation() {
    let mut reg = AvatarRegistry::new();
    let a = who(1);
    assert_eq!(reg.register_avatar(&a, request(""), 0).unwrap_err(), AvatarError::InvalidName);
    assert_eq!(reg.register_avatar(&a, request("   "), 0).unwrap_err(), AvatarError::InvalidName);
    assert_eq!(reg.register_avatar(&a, request(&"n".repeat(33)), 0).unwrap_err(), AvatarError::InvalidName);
    assert!(reg.list_avatars().is_empty());
    assert!(reg.register_avatar(&a, request(&"n".repeat(32)), 0).is_ok());
}

#[test]
fn unknown_avatar_is_not_found() {
    let mut reg = AvatarRegistry::new();
    assert_eq!(reg.get_avatar(&who(3)).unwrap_err(), AvatarError::NotFound);
    assert_eq!(reg.get_my_avatar(&who(3)).unwrap_err(), AvatarError::NotFound);
    assert_eq!(reg.update_avatar_metadata(&who(3), "x".to_string()).unwrap_err(), AvatarError::NotFound);
}

#[test]
fn metadata_update_touches_only_the_caller() {
    let mut reg = AvatarRegistry::new();
    let (a, b) = (who(1), who(2));
    reg.register_avatar(&a, request("Ada"), 1).unwrap();
    reg.register_avatar(&b, RegisterAvatarRequest { name: "Bo".to_string(), metadata: Some("old".to_string()) }, 2).unwrap();
    let updated = reg.update_avatar_metadata(&a, "blue".to_string()).unwrap();
    assert_eq!(updated.metadata, Some("blue".to_string()));
    assert_eq!(updated.name, "Ada");
    assert_eq!(reg.get_avatar(&a).unwrap().metadata, Some("blue".to_string()));
    assert_eq!(reg.get_avatar(&b).unwrap().metadata, Some("old".to_string()));
    let names: Vec<String> = reg.list_avatars().into_iter().map(|v| v.name).collect();
    assert_eq!(names, vec!["Ada".to_string(), "Bo".to_string()]);
}

#[test]
fn registry_rebuilds_from_its_avatars() {
    let mut reg = AvatarRegistry::new();
    let (a, b) = (who(1), who(2));
    reg.register_avatar(&a, request("Ada"), 1).unwrap();
    reg.register_avatar(&b, request("Bo"), 2).unwrap();
    let mut restored = AvatarRegistry::from_avatars(reg.list_avatars()).unwrap();
    assert_eq!(restored.get_avatar(&b).unwrap().name, "Bo");
    assert_eq!(restored.register_avatar(&a, request("Again"), 3).unwrap_err(), AvatarError::AvatarAlreadyExists);

    let mut twice = reg.list_avatars();
    twice.push(twice[0].clone());
    assert!(AvatarRegistry::from_avatars(twice).is_none());
}

#[test]
fn avatar_name_limit_counts_utf8_bytes() {
    let mut reg = AvatarRegistry::new();
    assert_eq!(reg.register_avatar(&who(1), request(&"é".repeat(17)), 0).unwrap_err(), AvatarError::InvalidName);
    assert!(reg.register_avatar(&who(1), request(&"é".repeat(16)), 0).is_ok());
    assert_eq!(reg.register_avatar(&who(2), request(&"🎫".repeat(9)), 0).unwrap_err(), AvatarError::InvalidName);
    assert!(reg.register_avatar(&who(2), request(&"🎫".repeat(8)), 0).is_ok());
    assert_eq!(reg.register_avatar(&who(3), request(&"€".repeat(11)), 0).unwrap_err(), AvatarError::InvalidName);
    assert!(reg.register_avatar(&who(3), request(&format!("{}xx", "€".repeat(10))), 0).is_ok());
}

#[test]
fn avatars_are_listed_in_principal_order() {
    let mut reg = AvatarRegistry::new();
    let owners = [vec![2u8], vec![1u8], vec![0u8, 0], vec![1u8, 5], vec![1u8, 2]];
    for (i, o) in owners.iter().enumerate() {
        reg.register_avatar(&Principal::from_bytes(o.clone()), request(&format!("a{}", i)), 0).unwrap();
    }
    let listed: Vec<Vec<u8>> = reg.list_avatars().iter().map(|a| a.owner.to_bytes()).collect();
    assert_eq!(listed, vec![vec![1u8], vec![2u8], vec![0u8, 0], vec![1u8, 2], vec![1u8, 5]]);

    let restored = AvatarRegistry::from_avatars(reg.list_avatars().into_iter().rev().collect()).unwrap();
    let again: Vec<Vec<u8>> = restored.list_avatars().iter().map(|a| a.owner.to_bytes()).collect();
    assert_eq!(again, listed);
}
