use snocat::registry::{InMemoryTunnelRegistry, TunnelNamingError, TunnelRegistrationError};

fn names_are_unique(reg: &InMemoryTunnelRegistry<u32>) -> bool {
    let keys = reg.keys();
    let mut names: Vec<String> = Vec::new();
    for k in keys {
        let rec = reg.lookup_by_id(k).unwrap();
        if rec.id != k {
            return false;
        }
        if let Some(n) = rec.name {
            if names.contains(&n) {
                return false;
            }
            names.push(n);
        }
    }
    true
}

#[test]
fn happy_path_registry_states() {
    let mut reg: InMemoryTunnelRegistry<u32> = InMemoryTunnelRegistry::new();
    assert_eq!(reg.register_tunnel(1, 10), Ok(()));
    let rec = reg.lookup_by_id(1).unwrap();
    assert_eq!(rec.id, 1);
    assert_eq!(rec.name, None);
    assert_eq!(rec.tunnel, 10);
    assert_eq!(reg.name_tunnel(1, "alice".to_string()), Ok(()));
    let rec = reg.lookup_by_id(1).unwrap();
    assert_eq!(rec.name, Some("alice".to_string()));
    let by_name = reg.lookup_by_name("alice".to_string()).unwrap();
    assert_eq!(by_name.id, 1);
    let removed = reg.deregister_tunnel(1).unwrap();
    assert_eq!(removed.id, 1);
    assert_eq!(removed.name, Some("alice".to_string()));
    assert!(reg.keys().is_empty());
    assert!(reg.lookup_by_id(1).is_none());
}

#[test]
fn auth_refusal_leaves_registry_empty() {
    let mut reg: InMemoryTunnelRegistry<u32> = InMemoryTunnelRegistry::new();
    assert_eq!(reg.register_tunnel(2, 20), Ok(()));
    assert_eq!(reg.keys(), vec![2]);
    assert!(reg.deregister_tunnel(2).is_ok());
    assert!(reg.keys().is_empty());
}

#[test]
fn name_collision_keeps_first_tunnel() {
    let mut reg: InMemoryTunnelRegistry<u32> = InMemoryTunnelRegistry::new();
    assert_eq!(reg.register_tunnel(1, 10), Ok(()));
    assert_eq!(reg.name_tunnel(1, "bob".to_string()), Ok(()));
    assert_eq!(reg.register_tunnel(2, 20), Ok(()));
    assert_eq!(
        reg.name_tunnel(2, "bob".to_string()),
        Err(TunnelNamingError::NameOccupied("bob".to_string()))
    );
    assert_eq!(reg.lookup_by_id(2).unwrap().name, None);
    assert!(reg.deregister_tunnel(2).is_ok());
    let a = reg.lookup_by_name("bob".to_string()).unwrap();
    assert_eq!(a.id, 1);
    assert_eq!(a.tunnel, 10);
}

#[test]
fn id_occupied_on_second_registration() {
    let mut reg: InMemoryTunnelRegistry<u32> = InMemoryTunnelRegistry::new();
    assert_eq!(reg.register_tunnel(7, 70), Ok(()));
    assert_eq!(reg.register_tunnel(7, 71), Err(TunnelRegistrationError::IdOccupied(7)));
    let first = reg.lookup_by_id(7).unwrap();
    assert_eq!(first.tunnel, 70);
    assert_eq!(reg.keys(), vec![7]);
}

#[test]
fn naming_an_absent_tunnel_fails() {
    let mut reg: InMemoryTunnelRegistry<u32> = InMemoryTunnelRegistry::new();
    assert_eq!(
        reg.name_tunnel(3, "carol".to_string()),
        Err(TunnelNamingError::TunnelNotRegistered(3))
    );
    assert!(reg.keys().is_empty());
}

#[test]
fn naming_again_with_own_name_is_accepted() {
    let mut reg: InMemoryTunnelRegistry<u32> = InMemoryTunnelRegistry::new();
    assert_eq!(reg.register_tunnel(4, 40), Ok(()));
    assert_eq!(reg.name_tunnel(4, "dave".to_string()), Ok(()));
    assert_eq!(reg.name_tunnel(4, "dave".to_string()), Ok(()));
    assert_eq!(reg.lookup_by_id(4).unwrap().name, Some("dave".to_string()));
}

#[test]
fn id_reusable_after_deregistration() {
    let mut reg: InMemoryTunnelRegistry<u32> = InMemoryTunnelRegistry::new();
    assert_eq!(reg.register_tunnel(9, 1), Ok(()));
    assert!(reg.deregister_tunnel(9).is_ok());
    assert_eq!(reg.register_tunnel(9, 1), Ok(()));
    assert_eq!(reg.keys(), vec![9]);
}

#[test]
fn lookup_absent_before_register_and_after_deregister() {
    let mut reg: InMemoryTunnelRegistry<u32> = InMemoryTunnelRegistry::new();
    assert!(reg.lookup_by_id(5).is_none());
    assert_eq!(reg.register_tunnel(5, 50), Ok(()));
    assert!(reg.lookup_by_id(5).is_some());
    assert!(reg.deregister_tunnel(5).is_ok());
    assert!(reg.lookup_by_id(5).is_none());
    assert_eq!(reg.deregister_tunnel(5).err(), Some(()));
}

#[test]
fn interleaved_operations_keep_ids_and_names_unique() {
    let mut reg: InMemoryTunnelRegistry<u32> = InMemoryTunnelRegistry::new();
    let names = ["a", "b", "c"];
    for round in 0u64..30 {
        let id = round % 5;
        match round % 3 {
            0 => {
                let _ = reg.register_tunnel(id, round as u32);
            }
            1 => {
                let _ = reg.name_tunnel(id, names[(round % 3 + id) as usize % 3].to_string());
            }
            _ => {
                if round % 4 == 0 {
                    let _ = reg.deregister_tunnel(id);
                }
            }
        }
        assert!(names_are_unique(&reg));
    }
}

#[test]
fn keys_and_max_key() {
    let mut reg: InMemoryTunnelRegistry<u32> = InMemoryTunnelRegistry::new();
    assert_eq!(reg.max_key(), None);
    for id in [4u64, 1, 9, 3] {
        assert_eq!(reg.register_tunnel(id, 0), Ok(()));
    }
    assert_eq!(reg.keys(), vec![1, 3, 4, 9]);
    assert_eq!(reg.max_key(), Some(9));
    assert!(reg.deregister_tunnel(9).is_ok());
    assert_eq!(reg.max_key(), Some(4));
}

#[test]
fn lookup_by_unknown_name_finds_nothing() {
    let mut reg: InMemoryTunnelRegistry<u32> = InMemoryTunnelRegistry::new();
    assert_eq!(reg.register_tunnel(1, 1), Ok(()));
    assert!(reg.lookup_by_name("nobody".to_string()).is_none());
}

#[test]
fn renaming_a_named_tunnel_is_refused() {
    let mut reg: InMemoryTunnelRegistry<u32> = InMemoryTunnelRegistry::new();
    assert_eq!(reg.register_tunnel(6, 60), Ok(()));
    assert_eq!(reg.name_tunnel(6, "erin".to_string()), Ok(()));
    assert_eq!(reg.name_tunnel(6, "frank".to_string()), Err(TunnelNamingError::AlreadyNamed(6)));
    assert_eq!(reg.lookup_by_id(6).unwrap().name, Some("erin".to_string()));
    assert!(reg.lookup_by_name("frank".to_string()).is_none());
    assert!(reg.deregister_tunnel(6).is_ok());
    assert_eq!(reg.register_tunnel(6, 60), Ok(()));
    assert_eq!(reg.name_tunnel(6, "frank".to_string()), Ok(()));
}
