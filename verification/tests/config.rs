use kvm_share::config::{
    contract_home, default_path, default_psk_path, expand_home, parse_and_validate, render,
    ConfigError, Direction, Home, LocalConfig, PeerConfig, RawConfig,
};
use kvm_share::path::{join, strip_prefix};
use std::path::{Path, PathBuf};

/// A home directory.
fn at(home: &str) -> Home {
    Ok(home.to_string())
}

/// No home directory.
fn nowhere() -> Home {
    Err("environment variable not found".to_string())
}

/// The usual home directory of these tests.
fn marco() -> Home {
    at("/home/marco")
}

fn local(width: u32, height: u32) -> LocalConfig {
    LocalConfig {
        name: "desktop".into(),
        width,
        height,
        listen: "0.0.0.0:7532".into(),
    }
}

fn peer(name: &str, addr: &str, psk_path: &str, direction: Direction) -> PeerConfig {
    PeerConfig {
        name: name.into(),
        addr: addr.into(),
        psk_path: psk_path.into(),
        direction,
    }
}

fn text_at(table: &toml::Table, key: &str) -> String {
    table[key].as_str().unwrap().to_string()
}

/// What the file says, as the program hands it over.
fn raw_config(toml_str: &str) -> Result<RawConfig, String> {
    let table: toml::Table = match toml_str.parse() {
        Ok(table) => table,
        Err(_) => return Err("sintaxe".to_string()),
    };
    let own = table["local"].as_table().unwrap();
    let mut peers = Vec::new();
    if let Some(list) = table.get("peer") {
        for entry in list.as_array().unwrap() {
            let entry = entry.as_table().unwrap();
            peers.push(PeerConfig {
                name: text_at(entry, "name"),
                addr: text_at(entry, "addr"),
                psk_path: text_at(entry, "psk_path"),
                direction: text_at(entry, "direction").parse().unwrap(),
            });
        }
    }
    Ok(RawConfig {
        local: LocalConfig {
            name: text_at(own, "name"),
            width: own["width"].as_integer().unwrap() as u32,
            height: own["height"].as_integer().unwrap() as u32,
            listen: text_at(own, "listen"),
        },
        peers,
    })
}

#[test]
fn parses_valid_toml_with_multiple_peers() {
    let toml_str = r#"
[local]
name = "desktop"
width = 2560
height = 1440
listen = "0.0.0.0:7532"

[[peer]]
name = "laptop"
addr = "192.168.1.50:7532"
psk_path = "/keys/laptop.psk"
direction = "right"

[[peer]]
name = "tablet"
addr = "192.168.1.51:7532"
psk_path = "/keys/tablet.psk"
direction = "left"
"#;
    let (local, peers) =
        parse_and_validate(raw_config(toml_str), &marco(), &vec![true, true]).unwrap();
    assert_eq!(local.name, "desktop");
    assert_eq!(local.width, 2560);
    assert_eq!(local.listen, "0.0.0.0:7532");
    assert_eq!(peers.len(), 2);
    assert_eq!(peers[0].name, "laptop");
    assert_eq!(peers[0].direction, Direction::Right);
    assert_eq!(peers[1].direction, Direction::Left);
}

#[test]
fn errors_on_malformed_toml() {
    let err = parse_and_validate(raw_config("this is not [ valid toml"), &marco(), &vec![])
        .unwrap_err();
    assert!(err.message().contains("malformado"));
}

#[test]
fn errors_when_psk_path_missing() {
    let toml_str = r#"
[local]
name = "desktop"
width = 2560
height = 1440
listen = "0.0.0.0:7532"

[[peer]]
name = "laptop"
addr = "192.168.1.50:7532"
psk_path = "/nonexistent/path/laptop.psk"
direction = "right"
"#;
    let err = parse_and_validate(raw_config(toml_str), &marco(), &vec![false]).unwrap_err();
    assert!(err.message().contains("psk_path"));
    assert_eq!(
        err.message(),
        "psk_path do peer 'laptop' não existe: /nonexistent/path/laptop.psk"
    );
}

#[test]
fn first_faulty_peer_decides() {
    let raw = RawConfig {
        local: local(1, 1),
        peers: vec![
            peer("a", "1.1.1.1:1", "/a", Direction::Up),
            peer("b", "1.1.1.1:1", "~/b", Direction::Up),
            peer("c", "1.1.1.1:1", "/c", Direction::Up),
        ],
    };
    let err = parse_and_validate(Ok(raw), &nowhere(), &vec![true, true, false]).unwrap_err();
    assert!(matches!(err, ConfigError::NoHome(_)));
    assert_eq!(
        err.message(),
        "variável de ambiente HOME não definida: environment variable not found"
    );
}

#[test]
fn key_paths_are_expanded() {
    let raw = RawConfig {
        local: local(1, 1),
        peers: vec![peer("b", "1.1.1.1:1", "~/keys/b", Direction::Up)],
    };
    let (_, peers) = parse_and_validate(Ok(raw), &marco(), &vec![true]).unwrap();
    assert_eq!(peers[0].psk_path, "/home/marco/keys/b");
}

#[test]
fn contract_home_replaces_home_prefix_with_tilde() {
    assert_eq!(
        contract_home(
            "/home/marco/.config/kvmc-share/peers/laptop.psk",
            &marco()
        ),
        "~/.config/kvmc-share/peers/laptop.psk"
    );
}

#[test]
fn contract_home_keeps_paths_outside_home_absolute() {
    assert_eq!(
        contract_home("/etc/kvmc-share/peers/laptop.psk", &marco()),
        "/etc/kvmc-share/peers/laptop.psk"
    );
}

#[test]
fn default_psk_path_matches_keygen_convention() {
    assert_eq!(
        PathBuf::from(default_psk_path("laptop")),
        PathBuf::from(".config/kvmc-share/peers/laptop.psk")
    );
}

#[test]
fn direction_from_str_accepts_all_four_values() {
    assert_eq!("left".parse::<Direction>().unwrap(), Direction::Left);
    assert_eq!("right".parse::<Direction>().unwrap(), Direction::Right);
    assert_eq!("up".parse::<Direction>().unwrap(), Direction::Up);
    assert_eq!("down".parse::<Direction>().unwrap(), Direction::Down);
}

#[test]
fn direction_from_str_rejects_invalid_value_with_clear_message() {
    let err = "diagonal".parse::<Direction>().unwrap_err();
    let msg = err.message();
    assert!(msg.contains("left"));
    assert!(msg.contains("right"));
    assert!(msg.contains("up"));
    assert!(msg.contains("down"));
    assert_eq!(
        msg,
        "direção inválida: 'diagonal' (esperado left, right, up ou down)"
    );
}

#[test]
fn direction_words_read_back() {
    for d in [
        Direction::Left,
        Direction::Right,
        Direction::Up,
        Direction::Down,
    ] {
        assert_eq!(d.as_str().parse::<Direction>().unwrap(), d);
    }
    assert!("Left".parse::<Direction>().is_err());
    assert!("".parse::<Direction>().is_err());
}

#[test]
fn default_path_resolves_under_home() {
    assert_eq!(
        PathBuf::from(default_path(&marco()).unwrap()),
        PathBuf::from("/home/marco/.config/kvmc-share/peers.toml")
    );
    assert!(default_path(&nowhere()).is_err());
}

#[test]
fn save_then_load_round_trips_with_multiple_peers() {
    let own = local(2560, 1440);
    let peers = vec![
        peer(
            "laptop",
            "192.168.1.50:7532",
            "/keys/laptop.psk",
            Direction::Right,
        ),
        peer(
            "tablet",
            "192.168.1.51:7532",
            "/home/marco/tablet.psk",
            Direction::Left,
        ),
    ];
    let toml_str = render(&own, &peers, &marco());
    let (loaded_local, loaded_peers) =
        parse_and_validate(raw_config(&toml_str), &marco(), &vec![true, true]).unwrap();

    assert_eq!(loaded_local, own);
    assert_eq!(loaded_peers, peers);
}

#[test]
fn save_with_no_peers_round_trips() {
    let own = local(1920, 1080);
    let toml_str = render(&own, &vec![], &marco());
    assert_eq!(
        toml_str,
        "[local]\nname = \"desktop\"\nwidth = 1920\nheight = 1080\nlisten = \"0.0.0.0:7532\"\n"
    );
    let (loaded_local, loaded_peers) =
        parse_and_validate(raw_config(&toml_str), &marco(), &vec![]).unwrap();

    assert_eq!(loaded_local, own);
    assert!(loaded_peers.is_empty());
}

#[test]
fn save_writes_psk_path_with_tilde_notation_under_home() {
    let peers = vec![peer(
        "laptop",
        "192.168.1.50:7532",
        "/home/marco/.config/kvmc-share/peers/laptop.psk",
        Direction::Right,
    )];
    let toml_str = render(&local(1920, 1080), &peers, &marco());
    assert!(toml_str.contains(r#"psk_path = "~/.config/kvmc-share/peers/laptop.psk""#));
    assert!(toml_str.ends_with("\n[[peer]]\nname = \"laptop\"\naddr = \"192.168.1.50:7532\"\npsk_path = \"~/.config/kvmc-share/peers/laptop.psk\"\ndirection = \"right\"\n"));
}

/// `expand_home` as `std::path` has it.
fn std_expand(path: &str, home: &str) -> PathBuf {
    match Path::new(path).strip_prefix("~") {
        Ok(rest) => PathBuf::from(home).join(rest),
        Err(_) => PathBuf::from(path),
    }
}

/// `contract_home` as `std::path` has it.
fn std_contract(path: &str, home: &str) -> String {
    match Path::new(path).strip_prefix(home) {
        Ok(rest) => PathBuf::from("~").join(rest).display().to_string(),
        Err(_) => path.to_string(),
    }
}

const PATHS: [&str; 24] = [
    "", "/", "//", ".", "./", "~", "~/", "~/x", "~//x/./y/", "~user/x", "./~/x", "a", "a/b",
    "a//b/", "/a", "/a/./b/.", "/home/marco", "/home/marco/", "/home//marco/./k.psk",
    "/home/marcos", "/home/marco/../x", "..", "../a", "/./a",
];

const HOMES: [&str; 8] = [
    "/home/marco", "/home/marco/", "/", "", ".", "a", "/home/./marco", "~",
];

#[test]
fn paths_are_treated_as_std_treats_them() {
    for home in HOMES {
        for path in PATHS {
            assert_eq!(
                expand_home(path, &at(home)).unwrap(),
                std_expand(path, home).display().to_string(),
                "expand {path:?} {home:?}"
            );
            assert_eq!(
                contract_home(path, &at(home)),
                std_contract(path, home),
                "contract {path:?} {home:?}"
            );
        }
    }
}

#[test]
fn expanding_undoes_contracting() {
    for home in ["/home/marco", "/home/marco/", "/", ".", "a"] {
        for path in PATHS {
            let outside = Path::new(path).strip_prefix(home).is_err();
            if outside && Path::new(path).starts_with("~") {
                continue;
            }
            let back = expand_home(&contract_home(path, &at(home)), &at(home)).unwrap();
            assert_eq!(Path::new(&back), Path::new(path), "{path:?} {home:?}");
        }
    }
}

#[test]
fn without_home_only_tilde_paths_fail() {
    assert!(matches!(expand_home("~/x", &nowhere()), Err(ConfigError::NoHome(_))));
    assert_eq!(expand_home("/x", &nowhere()).unwrap(), "/x");
    assert_eq!(contract_home("/home/marco/x", &nowhere()), "/home/marco/x");
}

#[test]
fn joining_and_stripping_agree_with_std() {
    for base in PATHS.iter().chain(HOMES.iter()) {
        for tail in PATHS {
            assert_eq!(
                join(base, tail),
                Path::new(base).join(tail).display().to_string(),
                "join {base:?} {tail:?}"
            );
            assert_eq!(
                strip_prefix(tail, base),
                Path::new(tail)
                    .strip_prefix(base)
                    .ok()
                    .map(|rest| rest.display().to_string()),
                "strip {tail:?} {base:?}"
            );
            if let Some(rest) = strip_prefix(tail, base) {
                assert_eq!(Path::new(&join(base, &rest)), Path::new(tail));
            }
        }
    }
}

#[test]
fn different_configurations_give_different_files() {
    let own = local(1, 1);
    let one = vec![peer("a", "1.1.1.1:1", "/a", Direction::Up)];
    let two = vec![peer("a", "1.1.1.1:1", "/a", Direction::Down)];
    assert_ne!(render(&own, &one, &nowhere()), render(&own, &two, &nowhere()));
    assert_ne!(render(&own, &one, &nowhere()), render(&own, &vec![], &nowhere()));
    assert_ne!(
        render(&local(11, 1), &one, &nowhere()),
        render(&local(1, 11), &one, &nowhere())
    );
}

#[test]
fn without_home_a_saved_configuration_loads_back_unchanged() {
    let own = local(1920, 1080);
    let peers = vec![
        peer("a", "1.1.1.1:1", "/keys//a.psk", Direction::Up),
        peer("b", "1.1.1.1:2", "keys/b.psk", Direction::Down),
    ];
    let toml_str = render(&own, &peers, &nowhere());
    let (loaded_local, loaded_peers) =
        parse_and_validate(raw_config(&toml_str), &nowhere(), &vec![true, true]).unwrap();
    assert_eq!(loaded_local, own);
    assert_eq!(loaded_peers, peers);
}
