use obsidian_syncer::structs::{Action, Vault, Vaults};

fn vault(path: &str, ts: u64, open: Option<bool>) -> Vault {
    Vault { path: String::from(path), ts, open }
}

#[test]
fn open_vaults_are_filtered_in_order() {
    let mut vaults = Vaults::new();
    vaults.add_vault(String::from("a"), vault("/v/a", 1, Some(true)));
    vaults.add_vault(String::from("b"), vault("/v/b", 2, Some(false)));
    vaults.add_vault(String::from("c"), vault("/v/c", 3, None));
    vaults.add_vault(String::from("d"), vault("/v/d", 4, Some(true)));
    let open = vaults.get_open_vaults();
    assert_eq!(open.len(), 2);
    assert_eq!(open[0].path, "/v/a");
    assert_eq!(open[1].path, "/v/d");
}

#[test]
fn get_vaults_returns_all_in_order() {
    let mut vaults = Vaults::new();
    vaults.add_vault(String::from("one"), vault("/one", 10, Some(false)));
    vaults.add_vault(String::from("two"), vault("/two", 20, Some(true)));
    let all = vaults.get_vaults();
    assert_eq!(all.len(), 2);
    assert_eq!(all[0].path, "/one");
    assert_eq!(all[0].ts, 10);
    assert_eq!(all[1].path, "/two");
    assert_eq!(all[1].ts, 20);
}

#[test]
fn empty_vault_list() {
    let vaults = Vaults::new();
    assert_eq!(vaults.get_vaults().len(), 0);
    assert_eq!(vaults.get_open_vaults().len(), 0);
}

#[test]
fn vault_clone_keeps_fields() {
    let v = vault("/somewhere", 42, Some(true));
    let c = v.clone();
    assert_eq!(c.path, "/somewhere");
    assert_eq!(c.ts, 42);
    assert_eq!(c.open, Some(true));
}

#[test]
fn actions_carry_their_payloads() {
    let a = Action::UpdatePlugins(String::from("/v/a"));
    match a {
        Action::UpdatePlugins(p) => assert_eq!(p, "/v/a"),
        _ => panic!("wrong variant"),
    }
    let b = Action::ChangeOpenVaults(vec![vault("/v/b", 1, Some(true))]);
    match b {
        Action::ChangeOpenVaults(vs) => {
            assert_eq!(vs.len(), 1);
            assert_eq!(vs[0].path, "/v/b");
        }
        _ => panic!("wrong variant"),
    }
}
