use hash_table::{ConstantHasher, HashTable};

#[derive(PartialEq, PartialOrd, Debug, Eq, Clone, Ord)]
struct User {
    name: String,
    age: i32,
}

#[test]
fn insert_and_get_key_value_pair() {
    let mut hash_table = HashTable::new();
    hash_table.insert(
        "gedalia",
        User {
            name: "gedalia".to_string(),
            age: 27,
        },
    );

    let result = hash_table.get(&"gedalia");
    let gedalia = User {
        name: "gedalia".to_string(),
        age: 27,
    };
    let expected_result = Some(&gedalia);

    assert_eq!(result, expected_result);
}

#[test]
fn test_get_key_parameter_is_not_moved() {
    let mut hash_table = HashTable::new();

    let gedalia_string = String::from("gedalia");

    let gedalia = User {
        name: gedalia_string.clone(),
        age: 27,
    };

    hash_table.insert(gedalia_string.clone(), gedalia.clone());

    let result = hash_table.get(&gedalia_string);
    let expected_result = Some(&gedalia);

    assert_eq!(result, expected_result);
}

#[test]
fn test_collisions() {
    // Every key hashes to 0, so every entry lands in bucket 0; each key must
    // still be addressable on its own.
    let mut hash_table = HashTable::with_hasher(ConstantHasher::new(0));
    hash_table.insert(
        "gedalia",
        User {
            name: "gedalia".to_string(),
            age: 27,
        },
    );

    hash_table.insert(
        "theo",
        User {
            name: "theo".to_string(),
            age: 0,
        },
    );

    let gedalia_result = hash_table.get(&"gedalia");
    let theo_result = hash_table.get(&"theo");

    let gedalia = User {
        name: "gedalia".to_string(),
        age: 27,
    };
    let expected_gedalia_result = Some(&gedalia);
    let theo = User {
        name: "theo".to_string(),
        age: 0,
    };
    let expected_theo_result = Some(&theo);

    assert_eq!(gedalia_result, expected_gedalia_result);
    assert_eq!(theo_result, expected_theo_result);
}

#[test]
fn test_dynamic_resizing() {
    let mut hash_table = HashTable::with_capacity(9);

    assert_eq!(hash_table.capacity(), 9);

    let users = vec![
        User {
            name: "gedalia".to_string(),
            age: 27,
        },
        User {
            name: "theo".to_string(),
            age: 0,
        },
        User {
            name: "aviva".to_string(),
            age: 26,
        },
        User {
            name: "chani".to_string(),
            age: 25,
        },
        User {
            name: "nachmi".to_string(),
            age: 24,
        },
        User {
            name: "avery".to_string(),
            age: 23,
        },
    ];

    for user in users {
        hash_table.insert(user.name.to_string(), user);
        assert_eq!(hash_table.capacity(), 9);
    }

    hash_table.insert(
        "caine".into(),
        User {
            name: "caine".to_string(),
            age: 22,
        },
    );

    assert_ne!(hash_table.capacity(), 9);
    assert!(hash_table.capacity() > 9);
    assert_eq!(hash_table.capacity(), 18);

    let gedalia_result = hash_table.get(&String::from("gedalia"));
    let caine_result = hash_table.get(&String::from("caine"));

    let gedalia = &User {
        name: "gedalia".to_string(),
        age: 27,
    };
    let expected_gedalia_result = Some(gedalia);
    let caine = &User {
        name: "caine".to_string(),
        age: 22,
    };
    let expected_caine_result = Some(caine);

    assert_eq!(gedalia_result, expected_gedalia_result);
    assert_eq!(caine_result, expected_caine_result);
}

#[test]
fn test_iteration_over_hash_table() {
    let mut hash_table = HashTable::with_capacity(9);

    let mut users = vec![
        User {
            name: "gedalia".to_string(),
            age: 27,
        },
        User {
            name: "theo".to_string(),
            age: 0,
        },
        User {
            name: "aviva".to_string(),
            age: 26,
        },
        User {
            name: "chani".to_string(),
            age: 25,
        },
        User {
            name: "nachmi".to_string(),
            age: 24,
        },
        User {
            name: "avery".to_string(),
            age: 23,
        },
        User {
            name: "caine".to_string(),
            age: 22,
        },
    ];

    users.sort();

    for user in &users {
        hash_table.insert(user.name.to_string(), user);
    }

    let mut entries = hash_table.iter();
    while let Some((k, v)) = entries.next() {
        let found = &users.binary_search(v);
        assert!(found.is_ok());
        assert!(found.map(|i| &users[i].name == k).unwrap() == true);
    }

    let nowhere_man = User {
        name: String::from("nowhereman"),
        age: -1,
    };

    // the table is usable again once the traversal is over
    hash_table.insert(String::from("nowhereman"), &nowhere_man);

    assert_eq!(
        hash_table.get(&String::from("nowhereman")),
        Some(&&User {
            name: String::from("nowhereman"),
            age: -1,
        })
    );
}

#[test]
fn test_entry_interface() {
    let mut hash_table = HashTable::new();

    let g_backup = User {
        name: "gedalia".to_string(),
        age: 27,
    };

    let user_entry = hash_table.entry("gedalia");
    let user = user_entry.or_insert(g_backup);
    (*user).age += 100;

    let user = hash_table.get(&"gedalia");
    assert_eq!(user.unwrap().age, 127);
}

#[test]
fn test_insert_with_same_key() {
    let mut hash_table = HashTable::new();

    let g = User {
        name: "not gedalia!".to_string(),
        age: 27,
    };

    let user = hash_table.insert("gedalia", g);
    assert_eq!(user, None);

    let old_g = User {
        name: "gedalia".to_string(),
        age: 127,
    };

    let old_user = hash_table.insert("gedalia", old_g).unwrap();
    assert_eq!(old_user.name, "not gedalia!");
    assert_eq!(old_user.age, 27);
}

#[test]
fn test_into_keys() {
    let mut hash_table = HashTable::with_capacity(9);

    let mut users = vec![
        User {
            name: "gedalia".to_string(),
            age: 27,
        },
        User {
            name: "theo".to_string(),
            age: 0,
        },
        User {
            name: "aviva".to_string(),
            age: 26,
        },
        User {
            name: "chani".to_string(),
            age: 25,
        },
        User {
            name: "nachmi".to_string(),
            age: 24,
        },
        User {
            name: "avery".to_string(),
            age: 23,
        },
        User {
            name: "caine".to_string(),
            age: 22,
        },
    ];

    users.sort();

    for user in &users {
        hash_table.insert(user.name.to_string(), user);
    }

    let keys = hash_table.into_keys();

    for k in &keys {
        let found = users.binary_search_by(|u| u.name.cmp(&k));
        assert!(found.is_ok());
    }

    for k in keys {
        let found = users.binary_search_by(|u| u.name.cmp(&k));
        assert!(found.is_ok());
    }
}

#[test]
fn test_remove() {
    let mut hash_table = HashTable::new();

    let mut users = vec![
        User {
            name: "gedalia".to_string(),
            age: 27,
        },
        User {
            name: "theo".to_string(),
            age: 0,
        },
        User {
            name: "aviva".to_string(),
            age: 26,
        },
    ];

    users.sort();

    for user in users {
        hash_table.insert(user.name.to_string(), user);
    }

    let ov = hash_table.remove(&"gedalia".into());

    assert_eq!(
        ov,
        Some(User {
            name: "gedalia".to_string(),
            age: 27,
        })
    );

    let ov = hash_table.remove(&"no_one".into());

    assert_eq!(ov, None)
}
