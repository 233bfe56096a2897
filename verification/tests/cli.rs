use kvm_share::args::{collect_to_names, take_flag};
use kvm_share::cli::{
    after_copy, capture_request, cmd_local_edit, cmd_peer_add, cmd_peer_edit, cmd_peer_rm,
    confirm, inject_request, keygen, keygen_step, local_edit_request, parse_invocation,
    peer_add_request, peer_edit_request, peer_rm_prompt, peer_rm_request, CliError, EditOutcome,
    Invocation, KeygenStep, RmOutcome, Usage,
};
use kvm_share::config::{Direction, Home, LocalConfig, PeerConfig};
use kvm_share::peers::{
    add_peer_to_list, apply_local_edit, apply_peer_edit, build_new_peer, filter_peers_by_to,
    format_peer_list, remove_peer, Address,
};
use std::path::PathBuf;

/// A home directory.
fn at(home: &str) -> Home {
    Ok(home.to_string())
}

/// No home directory.
fn nowhere() -> Home {
    Err("environment variable not found".to_string())
}

/// What is known of an address that was not given.
fn not_given() -> Address {
    Err(String::new())
}

fn words(list: &[&str]) -> Vec<String> {
    list.iter().map(|w| w.to_string()).collect()
}

fn sample_peer(name: &str) -> PeerConfig {
    PeerConfig {
        name: name.into(),
        addr: "192.168.1.50:7532".into(),
        psk_path: "/dev/null".into(),
        direction: Direction::Right,
    }
}

fn sample_local() -> LocalConfig {
    LocalConfig {
        name: "desktop".into(),
        width: 1920,
        height: 1080,
        listen: "0.0.0.0:7532".into(),
    }
}

#[test]
fn confirm_accepts_s_and_y_case_insensitive() {
    for input in ["s\n", "S\n", "y\n", "Y\n"] {
        assert!(confirm(input));
    }
}

#[test]
fn confirm_rejects_anything_else_including_empty() {
    for input in ["n\n", "\n", "talvez\n"] {
        assert!(!confirm(input));
    }
    assert!(!confirm(""));
    assert!(!confirm("ss"));
    assert!(confirm(" \t s \u{a0}\n"));
}

#[test]
fn take_flag_removes_flag_and_value_when_found() {
    let mut args = vec!["peer".into(), "add".into(), "--addr".into(), "1.2.3.4:7532".into()];
    let value = take_flag(&mut args, "--addr");
    assert_eq!(value.as_deref(), Some("1.2.3.4:7532"));
    assert_eq!(args, vec!["peer".to_string(), "add".to_string()]);
}

#[test]
fn take_flag_returns_none_and_keeps_args_when_not_found() {
    let mut args = vec!["peer".to_string(), "list".to_string()];
    let value = take_flag(&mut args, "--addr");
    assert_eq!(value, None);
    assert_eq!(args, vec!["peer".to_string(), "list".to_string()]);
}

#[test]
fn take_flag_takes_the_first_occurrence_and_needs_a_value() {
    let mut args = words(&["--to", "a", "x", "--to", "b"]);
    assert_eq!(take_flag(&mut args, "--to").as_deref(), Some("a"));
    assert_eq!(args, words(&["x", "--to", "b"]));

    let mut last = words(&["x", "--to"]);
    assert_eq!(take_flag(&mut last, "--to"), None);
    assert_eq!(last, words(&["x", "--to"]));
}

#[test]
fn format_peer_list_prints_one_line_per_peer() {
    let peers = vec![
        PeerConfig {
            name: "laptop".into(),
            addr: "192.168.1.50:7532".into(),
            psk_path: "/dev/null".into(),
            direction: Direction::Right,
        },
        PeerConfig {
            name: "tablet".into(),
            addr: "192.168.1.51:7532".into(),
            psk_path: "/dev/null".into(),
            direction: Direction::Left,
        },
    ];
    let out = format_peer_list(&peers);
    assert!(out.contains("laptop") && out.contains("192.168.1.50:7532") && out.contains("right"));
    assert!(out.contains("tablet") && out.contains("192.168.1.51:7532") && out.contains("left"));
    assert_eq!(out.lines().count(), 2);
    assert_eq!(
        out,
        "laptop\t192.168.1.50:7532\tright\ntablet\t192.168.1.51:7532\tleft"
    );
}

#[test]
fn format_peer_list_empty_shows_explicit_message() {
    let out = format_peer_list(&[]);
    assert!(!out.is_empty());
    assert!(out.contains("nenhum"));
}

#[test]
fn build_new_peer_derives_psk_path_by_convention() {
    let peer = build_new_peer(
        "laptop",
        "192.168.1.50:7532",
        Ok("192.168.1.50:7532".into()),
        "right",
        None,
        &at("/home/marco"),
    )
    .unwrap();
    assert_eq!(peer.name, "laptop");
    assert_eq!(peer.direction, Direction::Right);
    assert_eq!(
        PathBuf::from(peer.psk_path),
        PathBuf::from("/home/marco/.config/kvmc-share/peers/laptop.psk")
    );
}

#[test]
fn build_new_peer_respects_psk_path_override() {
    let peer = build_new_peer(
        "laptop",
        "192.168.1.50:7532",
        Ok("192.168.1.50:7532".into()),
        "right",
        Some("/custom/path.psk".into()),
        &nowhere(),
    )
    .unwrap();
    assert_eq!(PathBuf::from(peer.psk_path), PathBuf::from("/custom/path.psk"));
}

#[test]
fn build_new_peer_rejects_invalid_direction() {
    let err = build_new_peer(
        "laptop",
        "192.168.1.50:7532",
        Ok("192.168.1.50:7532".into()),
        "diagonal",
        None,
        &at("/home/marco"),
    )
    .unwrap_err();
    assert!(err.message().contains("diagonal"));
}

#[test]
fn build_new_peer_rejects_malformed_addr() {
    let err = build_new_peer(
        "laptop",
        "not-an-addr",
        Err("invalid socket address syntax".into()),
        "right",
        None,
        &at("/home/marco"),
    )
    .unwrap_err();
    assert!(err.message().contains("--addr inválido"));
    assert_eq!(err.message(), "--addr inválido: 'not-an-addr': invalid socket address syntax");
}

#[test]
fn build_new_peer_needs_home_for_the_usual_place() {
    let err = build_new_peer("laptop", "a", Ok("a".into()), "up", None, &nowhere()).unwrap_err();
    assert_eq!(
        err.message(),
        "variável de ambiente HOME não definida: environment variable not found"
    );
}

#[test]
fn add_peer_to_list_rejects_duplicate_name_without_mutating() {
    let mut peers = vec![PeerConfig {
        name: "laptop".into(),
        addr: "192.168.1.50:7532".into(),
        psk_path: "/dev/null".into(),
        direction: Direction::Right,
    }];
    let dup = PeerConfig {
        name: "laptop".into(),
        addr: "192.168.1.99:7532".into(),
        psk_path: "/dev/null".into(),
        direction: Direction::Left,
    };
    let err = add_peer_to_list(&mut peers, dup).unwrap_err();
    assert!(err.message().contains("já cadastrado"));
    assert_eq!(peers.len(), 1);
}

#[test]
fn apply_peer_edit_addr_only_preserves_direction_and_psk_path() {
    let mut peers = vec![sample_peer("laptop")];
    let new_addr = "10.0.0.9:9999".to_string();
    apply_peer_edit(&mut peers, "laptop", Some(new_addr.clone()), None).unwrap();
    assert_eq!(peers[0].addr, new_addr);
    assert_eq!(peers[0].direction, Direction::Right);
    assert_eq!(PathBuf::from(&peers[0].psk_path), PathBuf::from("/dev/null"));
}

#[test]
fn apply_peer_edit_direction_only_preserves_addr() {
    let mut peers = vec![sample_peer("laptop")];
    let original_addr = peers[0].addr.clone();
    apply_peer_edit(&mut peers, "laptop", None, Some(Direction::Left)).unwrap();
    assert_eq!(peers[0].addr, original_addr);
    assert_eq!(peers[0].direction, Direction::Left);
}

#[test]
fn apply_peer_edit_unknown_name_fails_without_mutating() {
    let mut peers = vec![sample_peer("laptop")];
    let err = apply_peer_edit(&mut peers, "ghost", None, None).unwrap_err();
    assert!(err.message().contains("não encontrado"));
    assert_eq!(peers[0], sample_peer("laptop"));
}

#[test]
fn remove_peer_removes_and_returns_entry() {
    let mut peers = vec![sample_peer("laptop"), sample_peer("tablet")];
    let removed = remove_peer(&mut peers, "laptop").unwrap();
    assert_eq!(removed.name, "laptop");
    assert_eq!(peers.len(), 1);
    assert_eq!(peers[0].name, "tablet");
}

#[test]
fn remove_peer_unknown_name_fails_without_mutating() {
    let mut peers = vec![sample_peer("laptop")];
    let err = remove_peer(&mut peers, "ghost").unwrap_err();
    assert!(err.message().contains("não encontrado"));
    assert_eq!(peers.len(), 1);
}

#[test]
fn removing_an_added_peer_gives_the_list_back() {
    let mut peers = vec![sample_peer("laptop"), sample_peer("tablet")];
    let before = peers.clone();
    add_peer_to_list(&mut peers, sample_peer("tv")).unwrap();
    assert_eq!(peers.len(), 3);
    assert_eq!(remove_peer(&mut peers, "tv").unwrap(), sample_peer("tv"));
    assert_eq!(peers, before);
}

#[test]
fn apply_local_edit_no_flags_leaves_unchanged() {
    let mut local = sample_local();
    apply_local_edit(&mut local, None, None, None, None);
    assert_eq!(local, sample_local());
}

#[test]
fn apply_local_edit_partial_flags_update_only_those_fields() {
    let mut local = sample_local();
    apply_local_edit(&mut local, None, Some(2560), Some(1440), None);
    assert_eq!(local.name, "desktop");
    assert_eq!(local.width, 2560);
    assert_eq!(local.height, 1440);
    assert_eq!(local.listen, "0.0.0.0:7532");
}

#[test]
fn apply_local_edit_all_flags_update_everything() {
    let mut local = sample_local();
    apply_local_edit(
        &mut local,
        Some("laptop".into()),
        Some(1280),
        Some(720),
        Some("0.0.0.0:9999".into()),
    );
    assert_eq!(local.name, "laptop");
    assert_eq!(local.width, 1280);
    assert_eq!(local.height, 720);
    assert_eq!(local.listen, "0.0.0.0:9999");
}

#[test]
fn filter_peers_by_to_empty_keeps_all_peers() {
    let peers = vec![sample_peer("laptop"), sample_peer("tablet")];
    let filtered = filter_peers_by_to(peers.clone(), &[]).unwrap();
    assert_eq!(filtered, peers);
}

#[test]
fn filter_peers_by_to_restricts_to_named_peers() {
    let peers = vec![sample_peer("laptop"), sample_peer("tablet")];
    let filtered = filter_peers_by_to(peers, &["laptop".to_string()]).unwrap();
    assert_eq!(filtered.len(), 1);
    assert_eq!(filtered[0].name, "laptop");
}

#[test]
fn filter_peers_by_to_dedupes_repeated_names_without_error() {
    let peers = vec![sample_peer("laptop"), sample_peer("tablet")];
    let filtered =
        filter_peers_by_to(peers, &["laptop".to_string(), "laptop".to_string()]).unwrap();
    assert_eq!(filtered.len(), 1);
}

#[test]
fn filter_peers_by_to_unknown_name_fails_before_returning() {
    let peers = vec![sample_peer("laptop")];
    let err = filter_peers_by_to(peers, &["ghost".to_string()]).unwrap_err();
    assert!(err.message().contains("ghost"));
}

#[test]
fn filter_peers_by_to_keeps_the_order_of_the_list() {
    let peers = vec![sample_peer("a"), sample_peer("b"), sample_peer("c")];
    let filtered = filter_peers_by_to(peers, &words(&["c", "a"])).unwrap();
    assert_eq!(filtered, vec![sample_peer("a"), sample_peer("c")]);
}

#[test]
fn collect_to_names_empty_flag_value_yields_no_filter() {
    let mut args = vec!["--to".to_string(), "".to_string()];
    assert_eq!(collect_to_names(&mut args), Vec::<String>::new());
}

#[test]
fn collect_to_names_only_commas_yields_no_filter() {
    let mut args = vec!["--to".to_string(), ",,".to_string()];
    assert_eq!(collect_to_names(&mut args), Vec::<String>::new());
}

#[test]
fn collect_to_names_supports_comma_list_and_repeated_flag() {
    let mut args = vec![
        "--to".to_string(),
        "laptop,tablet".to_string(),
        "--to".to_string(),
        "tv".to_string(),
    ];
    assert_eq!(
        collect_to_names(&mut args),
        vec!["laptop".to_string(), "tablet".to_string(), "tv".to_string()]
    );
    assert!(args.is_empty());
}

#[test]
fn invocations_are_told_apart() {
    assert_eq!(parse_invocation(&vec![]), Invocation::Run(vec![]));
    assert_eq!(
        parse_invocation(&words(&["run", "--to", "a"])),
        Invocation::Run(words(&["--to", "a"]))
    );
    assert_eq!(
        parse_invocation(&words(&["keygen", "a", "b"])),
        Invocation::Keygen(words(&["a", "b"]))
    );
    assert_eq!(
        parse_invocation(&words(&["peer", "list"])),
        Invocation::PeerList
    );
    assert_eq!(
        parse_invocation(&words(&["peer", "add", "x"])),
        Invocation::PeerAdd(words(&["x"]))
    );
    assert_eq!(
        parse_invocation(&words(&["peer", "edit"])),
        Invocation::PeerEdit(vec![])
    );
    assert_eq!(
        parse_invocation(&words(&["peer", "rm", "x"])),
        Invocation::PeerRm(words(&["x"]))
    );
    assert_eq!(
        parse_invocation(&words(&["local", "edit", "--name", "x"])),
        Invocation::LocalEdit(words(&["--name", "x"]))
    );
    for other in [
        words(&["peer"]),
        words(&["peer", "x"]),
        words(&["local"]),
        words(&["help"]),
    ] {
        assert_eq!(parse_invocation(&other), Invocation::Unknown);
    }
}

#[test]
fn capture_and_inject_check_their_arguments() {
    assert_eq!(
        capture_request(&words(&["host:1", "/dev/a", "/dev/b"])),
        Some(("host:1".to_string(), words(&["/dev/a", "/dev/b"])))
    );
    assert_eq!(capture_request(&words(&["host:1"])), None);
    assert_eq!(inject_request(&words(&["h:1"])), Some("h:1".to_string()));
    assert_eq!(inject_request(&words(&["h:1", "x"])), None);
    assert_eq!(inject_request(&vec![]), None);
}

#[test]
fn peer_add_command() {
    let add = peer_add_request(words(&[
        "laptop",
        "--direction",
        "up",
        "--addr",
        "1.2.3.4:5",
        "--psk-path",
        "/k",
    ]))
    .unwrap();
    assert_eq!(add.name, "laptop");
    let mut peers = vec![sample_peer("tv")];
    let text = cmd_peer_add(add, Ok("1.2.3.4:5".into()), &nowhere(), &mut peers).unwrap();
    assert_eq!(text, "peer 'laptop' adicionado");
    assert_eq!(peers.len(), 2);
    assert_eq!(peers[1].psk_path, "/k");
    assert_eq!(peers[1].direction, Direction::Up);

    let again = peer_add_request(words(&["tv", "--direction", "up", "--addr", "a"])).unwrap();
    let err = cmd_peer_add(again, Ok("a".into()), &at("/h"), &mut peers).unwrap_err();
    assert_eq!(err.message(), "peer 'tv' já cadastrado");
    assert_eq!(peers.len(), 2);
}

#[test]
fn peer_add_command_names_what_is_missing() {
    let err = peer_add_request(words(&["laptop", "--direction", "up"])).unwrap_err();
    assert!(matches!(err, CliError::Usage(Usage::PeerAdd)));
    let err = peer_add_request(words(&["laptop", "--addr", "a"])).unwrap_err();
    assert!(matches!(err, CliError::DirectionRequired));
    assert_eq!(err.message(), "--direction é obrigatório");
    let err = peer_add_request(words(&["--addr", "a", "--direction", "up"])).unwrap_err();
    assert_eq!(
        err.message(),
        "uso: kvmc-share peer add <nome> --addr <ip:porta> --direction <dir>"
    );
}

#[test]
fn peer_edit_command() {
    let mut peers = vec![sample_peer("laptop"), sample_peer("tv")];
    let show = peer_edit_request(words(&["tv"])).unwrap();
    assert_eq!(
        cmd_peer_edit(show, not_given(), &mut peers).unwrap(),
        EditOutcome::Show("tv\t192.168.1.50:7532\tright".into())
    );
    let edit = peer_edit_request(words(&["tv", "--addr", "9.9.9.9:9", "--direction", "down"]))
        .unwrap();
    assert_eq!(
        cmd_peer_edit(edit, Ok("9.9.9.9:9".into()), &mut peers).unwrap(),
        EditOutcome::Save(
            "peer 'tv' atualizado — reinicie o daemon (systemctl --user restart kvmc-share) pra aplicar"
                .into()
        )
    );
    assert_eq!(peers[0], sample_peer("laptop"));
    assert_eq!(peers[1].addr, "9.9.9.9:9");
    assert_eq!(peers[1].direction, Direction::Down);
    assert_eq!(peers[1].psk_path, "/dev/null");
}

#[test]
fn peer_edit_command_refuses() {
    let mut peers = vec![sample_peer("laptop")];
    let before = peers.clone();
    let err = peer_edit_request(words(&["--addr", "a"])).unwrap_err();
    assert_eq!(
        err.message(),
        "uso: kvmc-share peer edit <nome> [--addr ...] [--direction ...]"
    );
    let edit = peer_edit_request(words(&["ghost", "--addr", "x", "--direction", "y"])).unwrap();
    let err = cmd_peer_edit(
        edit,
        Err("invalid socket address syntax".into()),
        &mut peers,
    )
    .unwrap_err();
    assert!(matches!(err, CliError::BadAddr(_)));
    assert_eq!(
        err.message(),
        "--addr inválido: invalid socket address syntax"
    );
    let edit = peer_edit_request(words(&["ghost", "--direction", "y"])).unwrap();
    let err = cmd_peer_edit(edit, not_given(), &mut peers).unwrap_err();
    assert!(err.message().contains("direção inválida: 'y'"));
    let edit = peer_edit_request(words(&["ghost", "--direction", "up"])).unwrap();
    let err = cmd_peer_edit(edit, not_given(), &mut peers).unwrap_err();
    assert_eq!(err.message(), "peer 'ghost' não encontrado");
    let edit = peer_edit_request(words(&["ghost"])).unwrap();
    assert!(cmd_peer_edit(edit, not_given(), &mut peers).is_err());
    assert_eq!(peers, before);
}

#[test]
fn peer_rm_command() {
    let mut peers = vec![sample_peer("laptop"), sample_peer("tv")];
    let name = peer_rm_request(words(&["tv"])).unwrap();
    assert_eq!(
        peer_rm_prompt(&name, &peers).unwrap(),
        "remover peer 'tv' e sua PSK? (s/N): "
    );
    assert_eq!(
        cmd_peer_rm(&name, "n\n", &mut peers).unwrap(),
        RmOutcome::Cancelled
    );
    assert_eq!(peers.len(), 2);
    assert_eq!(
        cmd_peer_rm(&name, "s\n", &mut peers).unwrap(),
        RmOutcome::Removed {
            psk_path: "/dev/null".into(),
            text: "peer 'tv' removido — reinicie o daemon (systemctl --user restart kvmc-share) pra aplicar"
                .into()
        }
    );
    assert_eq!(peers, vec![sample_peer("laptop")]);
    assert!(peer_rm_prompt("tv", &peers).is_err());
    assert!(cmd_peer_rm("tv", "s", &mut peers).is_err());
    assert_eq!(
        peer_rm_request(vec![]).unwrap_err().message(),
        "uso: kvmc-share peer rm <nome>"
    );
}

#[test]
fn local_edit_command() {
    let mut local = sample_local();
    let show = local_edit_request(vec![]).unwrap();
    assert_eq!(
        cmd_local_edit(show, &mut local),
        EditOutcome::Show("desktop\t1920x1080\t0.0.0.0:7532".into())
    );
    let edit = local_edit_request(words(&["--width", "+2560", "--name", "tv"])).unwrap();
    assert_eq!(
        cmd_local_edit(edit, &mut local),
        EditOutcome::Save(
            "config local atualizada — reinicie o daemon (systemctl --user restart kvmc-share) pra aplicar"
                .into()
        )
    );
    assert_eq!(local.name, "tv");
    assert_eq!(local.width, 2560);
    assert_eq!(local.height, 1080);

    let err = local_edit_request(words(&["--height", "x", "--width", "4294967296"])).unwrap_err();
    assert_eq!(
        err.message(),
        "--width inválido: number too large to fit in target type"
    );
    let err = local_edit_request(words(&["--height", "-1"])).unwrap_err();
    assert_eq!(
        err.message(),
        "--height inválido: invalid digit found in string"
    );
    let err = local_edit_request(words(&["--height", ""])).unwrap_err();
    assert_eq!(
        err.message(),
        "--height inválido: cannot parse integer from empty string"
    );
}

#[test]
fn keygen_plans_where_the_key_goes() {
    let plan = keygen(&words(&["laptop", "me@host"]), &at("/home/marco")).unwrap();
    assert_eq!(
        plan.path,
        "/home/marco/.config/kvmc-share/peers/laptop.psk"
    );
    assert_eq!(plan.remote, "me@host:.config/kvmc-share/peers/laptop.psk");
    assert_eq!(
        plan.overwrite_prompt,
        "PSK já existe em /home/marco/.config/kvmc-share/peers/laptop.psk — sobrescrever? (s/N): "
    );
    assert_eq!(
        plan.manual_command,
        "  ssh me@host 'mkdir -p ~/.config/kvmc-share/peers' && scp /home/marco/.config/kvmc-share/peers/laptop.psk me@host:.config/kvmc-share/peers/laptop.psk"
    );
    assert_eq!(
        keygen(&words(&["laptop"]), &at("/h")).unwrap_err().message(),
        "uso: kvmc-share keygen <peer-name> <ip>"
    );
    assert!(keygen(&words(&["laptop", "h"]), &nowhere()).is_err());
}

#[test]
fn numbers_are_read_as_std_reads_them() {
    for text in [
        "", "+", "-", "0", "+0", "-0", "-1", "007", "4294967295", "4294967296",
        "99999999999999999999", "1 ", " 1", "1_0", "++1", "+-1", "１", "12a", "4294967296x",
        "99999999999x", "x99999999999", "12345678x9", "+4294967296", "00000000000000000001",
        "0000000000000x", "é",
    ] {
        match (kvm_share::text::parse_u32(text), text.parse::<u32>()) {
            (Ok(ours), Ok(theirs)) => assert_eq!(ours, theirs, "{text:?}"),
            (Err(ours), Err(theirs)) => {
                assert_eq!(ours.message(), theirs.to_string(), "{text:?}")
            }
            (ours, theirs) => panic!("{text:?}: {ours:?} {theirs:?}"),
        }
    }
    for n in [0u64, 9, 10, 4294967295, u64::MAX] {
        assert_eq!(kvm_share::text::decimal_text(n), n.to_string());
    }
    for b in 0..=255u8 {
        assert_eq!(kvm_share::text::hex_text(b), format!("{b:x}"));
    }
}

#[test]
fn text_helpers_agree_with_std() {
    let samples = ["", "a", "b", "ab", "é", "z", "Z", "ß", "😀", "a\u{0}"];
    for a in samples {
        for b in samples {
            assert_eq!(kvm_share::text::str_less(a, b), a < b, "{a:?} {b:?}");
            assert_eq!(kvm_share::text::str_eq(a, b), a == b, "{a:?} {b:?}");
        }
    }
    for c in 0..0x3100u32 {
        if let Some(c) = char::from_u32(c) {
            assert_eq!(kvm_share::text::is_whitespace(c), c.is_whitespace(), "{c:?}");
        }
    }
    for s in ["", " ", " a ", "\u{a0}x\u{2003}\n", "a b"] {
        assert_eq!(kvm_share::text::trim(s), s.trim());
    }
}

#[test]
fn existing_key_is_kept_unless_the_answer_is_a_yes() {
    let plan = keygen(&words(&["laptop", "host"]), &at("/h")).unwrap();
    assert_eq!(keygen_step(&plan, false, None), KeygenStep::Generate);
    assert_eq!(keygen_step(&plan, false, Some("n")), KeygenStep::Generate);
    assert_eq!(
        keygen_step(&plan, true, None),
        KeygenStep::Ask(
            "PSK já existe em /h/.config/kvmc-share/peers/laptop.psk — sobrescrever? (s/N): "
                .into()
        )
    );
    assert_eq!(keygen_step(&plan, true, Some("s\n")), KeygenStep::Generate);
    assert_eq!(keygen_step(&plan, true, Some("Y\n")), KeygenStep::Generate);
    assert_eq!(keygen_step(&plan, true, Some("\n")), KeygenStep::Kept);
    assert_eq!(keygen_step(&plan, true, Some("não")), KeygenStep::Kept);
}

#[test]
fn failed_copy_tells_how_to_copy_by_hand() {
    let plan = keygen(&words(&["laptop", "host"]), &at("/h")).unwrap();
    assert_eq!(
        after_copy(&plan, true),
        "PSK copiada com sucesso para host:.config/kvmc-share/peers/laptop.psk"
    );
    assert_eq!(
        after_copy(&plan, false),
        "não consegui copiar a PSK via scp automaticamente.\ncopie manualmente com:\n  ssh host 'mkdir -p ~/.config/kvmc-share/peers' && scp /h/.config/kvmc-share/peers/laptop.psk host:.config/kvmc-share/peers/laptop.psk"
    );
}
