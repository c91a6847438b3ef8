use light_magic::atomic::{staging_path, AtomicDatabase, DataStore};
use light_magic::doc::Doc;
use light_magic::table::{PrimaryKey, Table};
use light_magic::DbError;

#[derive(Default, Debug, Clone, PartialEq)]
struct User {
    id: usize,
    name: String,
    kind: String,
}

impl PrimaryKey for User {
    type PrimaryKeyType = usize;

    fn primary_key(&self) -> &Self::PrimaryKeyType {
        &self.id
    }
}

#[derive(Debug, Clone, PartialEq)]
enum Level {
    Admin,
}

impl Default for Level {
    fn default() -> Self {
        Level::Admin
    }
}

#[derive(Default, Debug, Clone)]
struct Permission {
    user_name: String,
    level: Level,
}

impl PrimaryKey for Permission {
    type PrimaryKeyType = String;

    fn primary_key(&self) -> &Self::PrimaryKeyType {
        &self.user_name
    }
}

#[derive(Default, Debug, Clone)]
struct Criminal {
    user_name: String,
    entry: String,
}

impl PrimaryKey for Criminal {
    type PrimaryKeyType = String;

    fn primary_key(&self) -> &Self::PrimaryKeyType {
        &self.user_name
    }
}

#[derive(Default, Debug, Clone, PartialEq)]
struct Settings {
    time: usize,
    password: String,
}

#[derive(Default)]
struct Database {
    users: Table<User>,
    permissions: Table<Permission>,
    criminals: Table<Criminal>,
    settings: Settings,
}

fn encode_user(u: &User) -> Doc {
    Doc::Object(vec![
        (String::from("id"), Doc::UInt(u.id as u64)),
        (String::from("name"), Doc::Text(u.name.clone())),
        (String::from("kind"), Doc::Text(u.kind.clone())),
    ])
}

fn decode_user(d: &Doc) -> Option<User> {
    match d {
        Doc::Object(es) => {
            let mut u = User::default();
            for (k, v) in es {
                match (k.as_str(), v) {
                    ("id", Doc::UInt(n)) => u.id = *n as usize,
                    ("name", Doc::Text(s)) => u.name = s.clone(),
                    ("kind", Doc::Text(s)) => u.kind = s.clone(),
                    _ => return None,
                }
            }
            Some(u)
        }
        _ => None,
    }
}

fn encode_permission(p: &Permission) -> Doc {
    Doc::Object(vec![
        (String::from("user_name"), Doc::Text(p.user_name.clone())),
        (String::from("level"), Doc::Text(String::from("Admin"))),
    ])
}

fn decode_permission(d: &Doc) -> Option<Permission> {
    match d {
        Doc::Object(es) => {
            let mut p = Permission::default();
            for (k, v) in es {
                match (k.as_str(), v) {
                    ("user_name", Doc::Text(s)) => p.user_name = s.clone(),
                    ("level", Doc::Text(_)) => p.level = Level::Admin,
                    _ => return None,
                }
            }
            Some(p)
        }
        _ => None,
    }
}

fn encode_criminal(c: &Criminal) -> Doc {
    Doc::Object(vec![
        (String::from("user_name"), Doc::Text(c.user_name.clone())),
        (String::from("entry"), Doc::Text(c.entry.clone())),
    ])
}

fn decode_criminal(d: &Doc) -> Option<Criminal> {
    match d {
        Doc::Object(es) => {
            let mut c = Criminal::default();
            for (k, v) in es {
                match (k.as_str(), v) {
                    ("user_name", Doc::Text(s)) => c.user_name = s.clone(),
                    ("entry", Doc::Text(s)) => c.entry = s.clone(),
                    _ => return None,
                }
            }
            Some(c)
        }
        _ => None,
    }
}

impl DataStore for Database {
    fn fresh() -> Self {
        Database::default()
    }

    fn to_doc(&self, human: bool) -> Doc {
        Doc::Object(vec![
            (String::from("users"), self.users.serialize(human, encode_user)),
            (
                String::from("permissions"),
                self.permissions.serialize(human, encode_permission),
            ),
            (
                String::from("criminals"),
                self.criminals.serialize(human, encode_criminal),
            ),
            (
                String::from("settings"),
                Doc::Object(vec![
                    (String::from("time"), Doc::UInt(self.settings.time as u64)),
                    (
                        String::from("password"),
                        Doc::Text(self.settings.password.clone()),
                    ),
                ]),
            ),
        ])
    }

    fn from_doc(d: &Doc, human: bool) -> Option<Self> {
        let entries = match d {
            Doc::Object(entries) => entries,
            _ => return None,
        };
        let mut db = Database::default();
        for (k, v) in entries {
            match k.as_str() {
                "users" => db.users = Table::deserialize(v, human, decode_user)?,
                "permissions" => {
                    db.permissions = Table::deserialize(v, human, decode_permission)?
                }
                "criminals" => db.criminals = Table::deserialize(v, human, decode_criminal)?,
                "settings" => match v {
                    Doc::Object(es) => {
                        for (sk, sv) in es {
                            match (sk.as_str(), sv) {
                                ("time", Doc::UInt(n)) => db.settings.time = *n as usize,
                                ("password", Doc::Text(s)) => db.settings.password = s.clone(),
                                _ => return None,
                            }
                        }
                    }
                    _ => return None,
                },
                _ => return None,
            }
        }
        Some(db)
    }
}

fn run_normal_ops(mut db: AtomicDatabase<Database>) {
    // normal adding
    db.write().users.add(User {
        id: 0,
        name: String::from("Nils"),
        kind: String::from("Young"),
    });
    assert!(db.read().users.get(&0).is_some());
    assert!(
        db.read()
            .users
            .search(|user: &User| user.name.contains("Nils"))
            .len()
            == 1
    );

    db.write().permissions.add(Permission {
        user_name: String::from("Nils"),
        level: Level::Admin,
    });
    assert!(db.read().permissions.get(&String::from("Nils")).is_some());
    assert!(
        db.read()
            .permissions
            .search(|permission: &Permission| permission.level == Level::Admin)
            .len()
            == 1
    );

    db.write().criminals.add(Criminal {
        user_name: String::from("Nils"),
        entry: String::from("No records until this day! Keep ur eyes pealed!"),
    });
    assert!(db.read().criminals.get(&String::from("Nils")).is_some());
    assert!(
        db.read()
            .criminals
            .search(|criminal: &Criminal| criminal.entry.contains("No records"))
            .len()
            == 1
    );

    let settings = Settings {
        time: 1718744090,
        password: String::from("password"),
    };

    db.write().settings = settings.clone();

    assert_eq!(db.read().settings, settings);

    // editing
    db.write().criminals.edit(
        &String::from("Nils"),
        Criminal {
            user_name: String::from("Nils W."),
            entry: String::from("Stole a hot dog!"),
        },
    );

    assert!(db.read().criminals.get(&String::from("Nils")).is_none());
    assert!(db.read().criminals.get(&String::from("Nils W.")).is_some());
    assert!(
        db.read()
            .criminals
            .search(|criminal: &Criminal| criminal.entry.contains("hot dog"))
            .len()
            == 1
    );

    // deleting
    db.write().criminals.delete(&String::from("Nils W."));

    assert!(db.read().criminals.get(&String::from("Nils W.")).is_none());
}

#[test]
fn normal_ops_in_persistence() {
    let (db, plan) =
        AtomicDatabase::<Database>::create("./tests/test.json", false, false).expect("create failed");
    assert_eq!(plan.target_path, "./tests/test.json");
    run_normal_ops(db);
}

#[test]
fn normal_ops_in_memory() {
    let db = AtomicDatabase::<Database>::load_in_memory();
    run_normal_ops(db);
}

#[test]
fn custom_derives() {
    let mut db = AtomicDatabase::<Database>::load_in_memory();

    let user1 = User {
        id: 0,
        name: String::from("Nils"),
        kind: String::from("Young"),
    };
    let user2 = User {
        id: 1,
        name: String::from("Alice"),
        kind: String::from("Old"),
    };

    let inserted_user1 = db.write().users.add(user1.clone()).unwrap_or(user1);
    let inserted_user2 = db.write().users.add(user2.clone()).unwrap_or(user2);

    assert_ne!(inserted_user1, inserted_user2);

    assert_eq!(inserted_user1.name, "Nils");
    assert_eq!(inserted_user2.name, "Alice");
}

#[test]
fn in_memory_scenario() {
    let mut db = AtomicDatabase::<Database>::load_in_memory();
    let added = db.write().users.add(User {
        id: 0,
        name: String::from("Nils"),
        kind: String::new(),
    });
    assert!(added.is_some());
    let again = db.write().users.add(User {
        id: 0,
        name: String::from("X"),
        kind: String::new(),
    });
    assert!(again.is_none());
    assert_eq!(db.read().users.get(&0).unwrap().name, "Nils");
    let edited = db.write().users.edit(
        &0,
        User {
            id: 0,
            name: String::from("Nils W."),
            kind: String::new(),
        },
    );
    assert!(edited.is_some());
    assert_eq!(db.read().users.get(&0).unwrap().name, "Nils W.");
    let removed = db.write().users.delete(&0);
    assert!(removed.is_some());
    assert_eq!(removed.unwrap().name, "Nils W.");
    assert!(db.read().users.get(&0).is_none());
}

#[test]
fn edit_rekey_moves_record() {
    let mut db = AtomicDatabase::<Database>::load_in_memory();
    db.write().criminals.add(Criminal {
        user_name: String::from("Nils"),
        entry: String::from("none"),
    });
    db.write().criminals.add(Criminal {
        user_name: String::from("Alice"),
        entry: String::from("none"),
    });
    // a rename onto a taken key is refused, with no mutation
    let refused = db.write().criminals.edit(
        &String::from("Nils"),
        Criminal {
            user_name: String::from("Alice"),
            entry: String::from("stolen identity"),
        },
    );
    assert!(refused.is_none());
    assert_eq!(db.read().criminals.get(&String::from("Nils")).unwrap().entry, "none");
    // a rename onto a fresh key moves the record
    let moved = db.write().criminals.edit(
        &String::from("Nils"),
        Criminal {
            user_name: String::from("Bob"),
            entry: String::from("renamed"),
        },
    );
    assert!(moved.is_some());
    assert!(db.read().criminals.get(&String::from("Nils")).is_none());
    assert_eq!(db.read().criminals.get(&String::from("Bob")).unwrap().entry, "renamed");
}

#[test]
fn values_and_search_ordered() {
    let mut db = AtomicDatabase::<Database>::load_in_memory();
    for (id, name) in [(2usize, "b"), (0, "c"), (1, "a")] {
        db.write().users.add(User {
            id,
            name: String::from(name),
            kind: String::new(),
        });
    }
    // iteration is in key order, not insertion order
    let guard = db.read();
    let vals = guard.users.values();
    let names: Vec<&str> = vals.iter().map(|u| u.name.as_str()).collect();
    assert_eq!(names, vec!["c", "a", "b"]);
    // a custom comparator reorders the matches
    let by_name = guard
        .users
        .search_ordered(|_u: &User| true, |a: &&User, b: &&User| a.name.cmp(&b.name));
    let names: Vec<&str> = by_name.iter().map(|u| u.name.as_str()).collect();
    assert_eq!(names, vec!["a", "b", "c"]);
}

#[test]
fn staging_path_shape() {
    assert_eq!(staging_path("./tests/test.json"), "./tests/.test.json~");
    assert_eq!(staging_path("db.json"), ".db.json~");
    assert_eq!(staging_path("dir/"), "dir/.db~");
}

#[test]
fn orphaned_staging_file_aborts() {
    let (_db, plan) =
        AtomicDatabase::<Database>::create("./tests/crash.json", false, false).expect("create failed");
    assert_ne!(plan.staging_path, plan.target_path);
    let disk_final = plan.bytes.clone();

    // a crash between staging and rename leaves the staging file behind:
    // the next open refuses, and the final file is untouched
    let refused = AtomicDatabase::<Database>::load("./tests/crash.json", &disk_final, true);
    assert!(matches!(refused, Err(DbError::AlreadyExists)));

    // once the operator removed the orphan, the untouched snapshot loads
    let (reloaded, _plan) = AtomicDatabase::<Database>::load("./tests/crash.json", &disk_final, false)
        .expect("load failed");
    assert_eq!(reloaded.read().users.len(), 0);
}

#[test]
fn plaintext_snapshot_round_trips() {
    let (mut db, _plan) =
        AtomicDatabase::<Database>::create("./tests/round.json", false, false).expect("create failed");
    db.write().users.add(User {
        id: 3,
        name: String::from("Ada"),
        kind: String::from("Old"),
    });
    db.write().settings.time = 42;
    let plan = db.commit().expect("a file-backed store commits");
    let (back, _plan) = AtomicDatabase::<Database>::load("./tests/round.json", &plan.bytes, false)
        .expect("reload failed");
    assert_eq!(back.read().users.get(&3).unwrap().name, "Ada");
    assert_eq!(back.read().settings.time, 42);
    assert!(back.read().users.get(&4).is_none());
}

#[test]
fn corrupt_plaintext_is_refused() {
    let garbage = b"not a snapshot";
    let r = AtomicDatabase::<Database>::load("./tests/x.json", garbage, false);
    assert!(matches!(r, Err(DbError::CorruptData)));
    assert_eq!(DbError::CorruptData.message(), "failed to deserialize data");
}
