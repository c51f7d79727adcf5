use savescummer_catalog::model::{Platform, Store};
use savescummer_catalog::placeholders::{pick_profile, resolve};
use savescummer_catalog::resolve::{Environment, Install};

fn windows_install() -> Install {
    Install {
        catalog_id: "steam-1".into(),
        store: Store::Steam,
        platform: Platform::Windows,
        install_dir: r"D:\Games\Game".into(),
        executables: vec![],
        proton_prefix: None,
        identity: None,
    }
}

fn environment() -> Environment {
    Environment {
        folders: vec![
            ("APPDATA".into(), r"C:\Users\me\AppData\Roaming".into()),
            ("HOME".into(), r"C:\Users\me".into()),
        ],
        steam_userdata: Some("C:/Steam/userdata/99".into()),
        current_pick: None,
        store_user_id: None,
    }
}

#[test]
fn resolves_windows_and_steam_placeholders() {
    let env = environment();
    let user = "steamuser";
    assert_eq!(
        resolve("{INSTALL_DIR}/Saves", &windows_install(), &env, user).unwrap(),
        r"D:\Games\Game/Saves"
    );
    assert_eq!(
        resolve("{APPDATA}/Void_War", &windows_install(), &env, user).unwrap(),
        r"C:\Users\me\AppData\Roaming/Void_War"
    );
    assert_eq!(
        resolve("{STEAM_USERDATA}/588650/remote", &windows_install(), &env, user).unwrap(),
        "C:/Steam/userdata/99/588650/remote"
    );
    assert_eq!(
        resolve("{HOME}/Saved Games/Jagged Alliance 3/{STORE_USER_ID}/*.sav", &windows_install(), &env, user).unwrap(),
        r"C:\Users\me/Saved Games/Jagged Alliance 3/99/*.sav"
    );
}

#[test]
fn drops_unavailable_placeholders() {
    let env = Environment::default();
    assert!(resolve("{APPDATA}/game", &windows_install(), &env, "steamuser").is_none());
}

#[test]
fn translates_windows_placeholders_into_a_proton_prefix() {
    let prefix = "/home/me/.steam/steamapps/compatdata/1/pfx";
    let install = Install { platform: Platform::Linux, proton_prefix: Some(prefix.into()), ..windows_install() };
    let user = pick_profile(&["steamuser".to_string()]);
    assert_eq!(
        resolve("{APPDATA}/Void_War", &install, &environment(), &user).unwrap(),
        format!("{prefix}/drive_c/users/steamuser/AppData/Roaming/Void_War")
    );
    // A single non-default profile is used instead of steamuser.
    let user = pick_profile(&["steamuser".to_string(), "alice".to_string()]);
    assert_eq!(
        resolve("{DOCUMENTS}", &install, &environment(), &user).unwrap(),
        format!("{prefix}/drive_c/users/alice/Documents")
    );
    // Two extra profiles are ambiguous: steamuser wins.
    let user = pick_profile(&["steamuser".to_string(), "alice".to_string(), "bob".to_string()]);
    assert_eq!(
        resolve("{LOCALAPPDATA}", &install, &environment(), &user).unwrap(),
        format!("{prefix}/drive_c/users/steamuser/AppData/Local")
    );
}

#[test]
fn templates_that_stay_relative_or_climb_are_dropped() {
    let env = environment();
    assert!(resolve("saves/{HOME}", &windows_install(), &env, "steamuser").is_none());
    assert!(resolve("{HOME}/../x", &windows_install(), &env, "steamuser").is_none());
    assert!(resolve("{HOME}/<x>", &windows_install(), &env, "steamuser").is_none());
    assert!(resolve("{HOME/x", &windows_install(), &env, "steamuser").is_none());
    assert!(resolve("{XDG_DATA_HOME}/x", &windows_install(), &env, "steamuser").is_none());
    assert_eq!(resolve("/var/games/x", &windows_install(), &env, "steamuser").unwrap(), "/var/games/x");
    assert_eq!(resolve(r"{HOME}\Saves", &windows_install(), &env, "steamuser").unwrap(), r"C:\Users\me/Saves");
}

#[test]
fn profiles_repeated_count_once() {
    assert_eq!(pick_profile(&[]), "steamuser");
    assert_eq!(pick_profile(&["deck".to_string(), "deck".to_string(), "steamuser".to_string()]), "deck");
}

#[test]
fn shared_profiles_are_not_user_profiles() {
    let names = |v: &[&str]| v.iter().map(|s| s.to_string()).collect::<Vec<_>>();
    assert_eq!(pick_profile(&names(&["steamuser", "Public", "deck"])), "deck");
    assert_eq!(pick_profile(&names(&["Public"])), "steamuser");
    assert_eq!(pick_profile(&names(&["steamuser", "Default", "deck"])), "steamuser");
    assert_eq!(pick_profile(&names(&["steamuser", "Public", "deck", "alice"])), "steamuser");
}
