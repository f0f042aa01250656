use breadbin::{cli, desktop, picker, progress, roms, run};

fn owned(v: &[&str]) -> Vec<String> {
    v.iter().map(|s| s.to_string()).collect()
}

#[test]
fn the_command_line_of_the_launcher_is_read() {
    match run::parse_run(&owned(&["-W", "--windowed", "--no-drive-sound", "last", "ninja"])) {
        run::RunCommand::Run(a) => {
            assert!(!a.warp && !a.fullscreen && !a.list_only);
            assert_eq!(a.drive_sound, Some(false));
            assert_eq!(a.words, owned(&["last", "ninja"]));
        }
        _ => panic!("a game was given"),
    }
    match run::parse_run(&owned(&["--", "-x"])) {
        run::RunCommand::Run(a) => assert_eq!(a.words, owned(&["-x"])),
        _ => panic!("a game was given"),
    }
    assert!(matches!(run::parse_run(&owned(&["-h"])), run::RunCommand::Help));
    assert!(matches!(run::parse_run(&owned(&[])), run::RunCommand::NothingGiven));
    match run::parse_run(&owned(&["--wrap"])) {
        run::RunCommand::UnknownOption(o) => assert_eq!(o, "--wrap"),
        _ => panic!("unknown"),
    }
}

#[test]
fn free_emulators_come_first() {
    let mut e = run::Emulators { setting: None, x64sc: false, x64: true, flatpak: true, wine: true };
    assert_eq!(run::pick_emulator(&e).ok(), Some(owned(&["x64"])));
    e.x64 = false;
    assert_eq!(
        run::pick_emulator(&e).ok(),
        Some(owned(&["flatpak", "run", "--command=x64sc", "net.sf.VICE"]))
    );
    e.flatpak = false;
    assert_eq!(run::pick_emulator(&e).unwrap_or_default()[0], "wine");
    e.wine = false;
    assert!(matches!(run::pick_emulator(&e), Err(run::NoEmulator::NoneFound)));
    e.setting = Some("my 'x 64' -a".to_string());
    assert_eq!(run::pick_emulator(&e).ok(), Some(owned(&["my", "x 64", "-a"])));
    e.setting = Some("open 'quote".to_string());
    assert!(matches!(run::pick_emulator(&e), Err(run::NoEmulator::BadSetting)));
}

#[test]
fn options_are_those_that_the_emulator_knows() {
    assert_eq!(run::drive_flags("-virtualdev8", true), owned(&["-virtualdev8"]));
    assert_eq!(
        run::drive_flags("-drive8truedrive -trapdevice8 -autostart-handle-tde", false),
        owned(&["-drive8truedrive", "-trapdevice8", "-autostart-handle-tde"])
    );
    assert_eq!(
        run::drive_flags("-drive8truedrive -autostart-handle-tde", false),
        owned(&["-drive8truedrive", "-autostart-handle-tde"])
    );
    assert_eq!(run::drive_flags("-drive8truedrive -trapdevice8", false), owned(&["-drive8truedrive"]));
    assert_eq!(run::drive_flags("-trapdevice8", true), owned(&["-trapdevice8"]));
    assert_eq!(
        run::drive_flags("-trapdevice8 -drive8truedrive +drive8truedrive", true),
        owned(&["-trapdevice8", "+drive8truedrive"])
    );
    assert!(run::drive_flags("+drive8truedrive", true).is_empty());
    assert_eq!(run::drive_flags("-truedrive", false), owned(&["-truedrive"]));
    assert!(run::drive_flags("nothing", false).is_empty());
    assert!(run::drive_sound_flags("nothing", Some(true), &None, &None).is_empty());
    assert_eq!(run::drive_sound_flags("-drivesound", Some(true), &None, &None), owned(&["-drivesound"]));
    assert!(run::drive_sound_flags("-drivesound", Some(false), &None, &None).is_empty());
    assert_eq!(
        run::control_flags(true, &Some("/c".to_string()), &None),
        owned(&["-config", "/c", "-joydev2", "4", "-joydev1", "2"])
    );
    assert_eq!(run::control_flags(false, &None, &None), owned(&["-joydev2", "1"]));
    assert_eq!(run::controls_description(true).len(), 2);
    assert!(run::controls_config().starts_with("[C64SC]\nKeySetEnable=1\n"));
}

#[test]
fn the_whole_command_starts_the_game() {
    let l = run::Launch {
        help: "-truedrive -drivesound".to_string(),
        virtual_drive: false,
        sound: None,
        volume: None,
        joystick: false,
        config: None,
        device: None,
        log: Some("1".to_string()),
        usual_log: "/d/vice.log".to_string(),
    };
    let a = run::RunArgs {
        warp: true,
        fullscreen: true,
        list_only: false,
        keyboard: false,
        drive_sound: Some(false),
        words: Vec::new(),
    };
    assert_eq!(
        run::launch_args(&owned(&["x64sc"]), &l, &a, "/g.d64"),
        owned(&[
            "x64sc", "-truedrive", "-autostart-warp", "-VICIIfull", "-joydev2", "1", "-verbose",
            "-logfile", "/d/vice.log", "-autostart", "/g.d64",
        ])
    );
    let with_joystick = run::Launch { joystick: true, log: None, ..l };
    assert!(run::uses_joystick(true, &a));
    assert!(!run::uses_joystick(false, &a));
    assert_eq!(
        run::launch_args(&owned(&["x64sc"]), &with_joystick, &a, "/g"),
        owned(&["x64sc", "-truedrive", "-autostart-warp", "-VICIIfull", "-joydev2", "4", "-joydev1", "2", "-autostart", "/g"])
    );
    let by_keyboard = run::RunArgs { keyboard: true, ..a };
    assert!(!run::uses_joystick(true, &by_keyboard));
    assert_eq!(
        run::launch_args(&owned(&["x64sc"]), &with_joystick, &by_keyboard, "/g"),
        owned(&["x64sc", "-truedrive", "-autostart-warp", "-VICIIfull", "-joydev2", "1", "-autostart", "/g"])
    );
}

#[test]
fn controllers_are_recognised() {
    assert!(run::joystick_present(&Some("1".to_string()), &Vec::new(), &Vec::new()));
    assert!(!run::joystick_present(&Some("no".to_string()), &owned(&["js0"]), &Vec::new()));
    assert!(run::joystick_present(&None, &owned(&["event0", "js0"]), &Vec::new()));
    assert!(!run::joystick_present(&None, &owned(&["jsx"]), &Vec::new()));
    assert!(run::joystick_present(&None, &Vec::new(), &owned(&["usb-Gamepad-event-JOYSTICK"])));
    assert!(run::is_drive_rom("DOS1541-325302-01.bin"));
    assert!(run::use_virtual_drive(&None, true, false));
    assert!(!run::use_virtual_drive(&None, true, true));
    assert!(!run::use_virtual_drive(&Some("0".to_string()), true, false));
}

#[test]
fn a_number_chooses_of_a_list() {
    assert_eq!(run::chosen(" 2\n", 3), Some(1));
    assert_eq!(run::chosen("0", 3), None);
    assert_eq!(run::chosen("4", 3), None);
    assert_eq!(run::chosen("x", 3), None);
    assert!(run::matches_query("Wizball.D64", "wizB"));
    assert!(!run::matches_query("Wizball.txt", "wiz"));
}

#[test]
fn licensed_roms_are_needed() {
    assert!(roms::present(true, &None, false));
    assert!(roms::present(false, &Some("/r".to_string()), true));
    assert!(!roms::present(false, &Some("/r".to_string()), false));
    assert!(!roms::present(false, &None, true));
    assert_eq!(roms::rom_dir(Some("  "), &Some("/env".to_string())), Some("/env".to_string()));
    assert_eq!(roms::rom_dir(Some("/cfg"), &Some("/env".to_string())), Some("/cfg".to_string()));
    assert_eq!(roms::required_roms(), owned(&["kernal", "basic", "chargen"]));
    assert!(desktop::launch_opts(true, true, false, None).is_none());
    let o = desktop::launch_opts(false, true, false, roms::detect(false, &Some("/r".to_string()), true)).unwrap();
    assert_eq!(desktop::wine_prefix(&o), None);
    let l = run::Launch {
        help: "-kernal <Name> -basic <Name> -chargen <Name> -truedrive -virtualdev8".to_string(),
        virtual_drive: true,
        sound: None,
        volume: None,
        joystick: true,
        config: None,
        device: None,
        log: Some("1".to_string()),
        usual_log: "/log".to_string(),
    };
    assert_eq!(
        desktop::spawn_command(&o, &owned(&["x64sc"]), &l, "/g.d64"),
        owned(&[
            "x64sc", "-truedrive", "-VICIIfull", "-joydev2", "4", "-joydev1", "2", "-kernal", "/r/kernal", "-basic",
            "/r/basic", "-chargen", "/r/chargen", "-autostart", "/g.d64",
        ])
    );
    let mut k = desktop::launch_opts(false, true, false, roms::detect(false, &Some("/r".to_string()), true)).unwrap();
    k.keyboard = true;
    assert!(desktop::spawn_command(&k, &owned(&["x64sc"]), &l, "/g.d64").contains(&"1".to_string()));
    assert_eq!(desktop::rom_args(&o.forever, "-basic"), owned(&["-basic", "/r/basic"]));
    let b = desktop::launch_opts(true, true, false, roms::detect(true, &None, false)).unwrap();
    assert_eq!(desktop::wine_prefix(&b), Some("/opt/wine/.wine".to_string()));
    assert_eq!(desktop::spawn_command(&b, &Vec::new(), &l, "/g")[0], "wine");
    assert_eq!(desktop::emulator_program(&o.forever, &owned(&["x64sc"])), owned(&["x64sc"]));
    assert_eq!(desktop::emulator_program(&b.forever, &Vec::new()), desktop::spawn_command(&b, &Vec::new(), &l, "/g")[..2]);
}

#[test]
fn sections_open_and_close() {
    let mut s = desktop::Strip::new(12, desktop::GAMES_IN_STRIP);
    assert!(s.has_overflow());
    assert_eq!(s.shown(), 8);
    assert_eq!(s.label(), "Show All (12)");
    assert!(s.toggle());
    assert_eq!(s.label(), "Show Less");
    assert!(!s.toggle());
    assert_eq!(s.label(), "Show All (12)");
    assert!(!s.toggle());
    let mut c = desktop::Covers::new(2);
    assert_eq!(c.label(), "Loading covers \u{2014} 0 / 2");
    assert!(!c.one_more());
    assert!(c.one_more());
    assert_eq!(
        desktop::scan_labels(3, 500),
        ("3/500".to_string(), "LOADING 3 OF 500...".to_string())
    );
    assert_eq!(desktop::colour_text(0x40, 0x31, 0xfa), "#4031FA");
}

#[test]
fn tools_are_called_by_name_and_by_subcommand() {
    let none: Vec<String> = Vec::new();
    assert_eq!(cli::dispatch("c64run", &owned(&["x"])), cli::Call::Tool(cli::Tool::Run, 0));
    assert_eq!(cli::dispatch("c64nope", &none), cli::Call::NoSuchTool);
    assert_eq!(cli::dispatch("breadbin", &none), cli::Call::Tool(cli::Tool::Kiosk, 1));
    assert_eq!(cli::dispatch("breadbin", &owned(&["jukebox"])), cli::Call::Tool(cli::Tool::Tunes, 1));
    assert_eq!(cli::dispatch("breadbin", &owned(&["help"])), cli::Call::Help);
    assert_eq!(cli::dispatch("breadbin", &owned(&["install-links"])), cli::Call::Links);
    assert_eq!(cli::dispatch("breadbin", &owned(&["_norm"])), cli::Call::Norm);
    assert_eq!(cli::dispatch("breadbin", &owned(&["_cover"])), cli::Call::Cover);
    assert_eq!(cli::dispatch("breadbin", &owned(&["_disk"])), cli::Call::Disk);
    assert_eq!(cli::dispatch("breadbin", &owned(&["_sid"])), cli::Call::Sid);
    assert_eq!(cli::dispatch("breadbin", &owned(&["fly"])), cli::Call::UnknownCommand);
    assert_eq!(cli::resolve_subcommand("build-index"), Some(cli::Tool::Index));
    for n in cli::link_names() {
        let t = cli::tool_by_name(&n).unwrap();
        assert_eq!(cli::tool_name(t), n);
    }
}

#[test]
fn the_command_lines_of_the_browsers_are_read() {
    let (a, end) = cli::parse_browse(cli::Tool::Demos, 1000, &owned(&["-w", "--limit", "50", "--refresh", "--real"]));
    assert_eq!(a.runopts, owned(&["-w", "-r"]));
    assert_eq!(a.limit, 50);
    assert!(a.refresh && matches!(end, cli::End::Go));
    let (a, _) = cli::parse_browse(cli::Tool::Tunes, 600, &owned(&["--radio", "--limit"]));
    assert!(a.radio);
    assert_eq!(a.limit, 600);
    let (_, end) = cli::parse_browse(cli::Tool::Tunes, 600, &owned(&["-w"]));
    assert!(matches!(end, cli::End::Unknown(_)));
    let (_, end) = cli::parse_browse(cli::Tool::Menu, 0, &owned(&["-f", "word", "--bad"]));
    assert!(matches!(end, cli::End::Go));
    let (a, end) = cli::parse_browse(cli::Tool::Tosec, 0, &owned(&["--refresh-index", "-h"]));
    assert!(a.refresh && matches!(end, cli::End::Help));
    let (_, end) = cli::parse_browse(cli::Tool::Kiosk, 0, &owned(&["--refresh"]));
    assert!(matches!(end, cli::End::Unknown(_)));
}

#[test]
fn the_command_lines_of_the_downloaders_are_read() {
    let (a, end) = cli::parse_fetch(
        true,
        &owned(&["-n", "--source", "all", "--dest", "/d", "--id", "x", "--missing", "wizball"]),
    );
    assert!(a.dry && a.missing && matches!(end, cli::End::Go));
    assert_eq!(a.sources, owned(&["ia", "tosec"]));
    assert_eq!(a.dest, Some("/d".to_string()));
    assert_eq!(a.ident, Some("x".to_string()));
    assert_eq!(a.queries, owned(&["wizball"]));
    let (a, end) = cli::parse_fetch(true, &owned(&["--refresh-index", "--ia-index", "--bad"]));
    assert!(a.refresh && matches!(end, cli::End::BuildIndex));
    let (_, end) = cli::parse_fetch(false, &owned(&["--source", "ia"]));
    match end {
        cli::End::Unknown(o) => assert_eq!(o, "--source"),
        _ => panic!("tapes have one source"),
    }
    let (a, end) = cli::parse_fetch(true, &owned(&["--source"]));
    assert_eq!(a.sources, owned(&["ia"]));
    assert!(matches!(end, cli::End::Go));
    assert_eq!(cli::bad_sources(&owned(&["ia", "tosec"])), None);
    assert_eq!(
        cli::bad_sources(&owned(&["ia", "x", "y"])),
        Some("unknown source(s): x, y (use ia, tosec, or all)".to_string())
    );
    let (w, end) = cli::parse_info(&owned(&["-a", "zak", "--refresh-db", "mck"]));
    assert!(w.all && w.refresh && matches!(end, cli::End::Go));
    assert_eq!(w.words, owned(&["zak", "mck"]));
    assert!(matches!(cli::parse_info(&owned(&["--help"])).1, cli::End::Help));
}

#[test]
fn answers_of_a_picker_are_read() {
    let titles = owned(&["Wizball", "Elite"]);
    assert_eq!(picker::numbered_lines(&titles), "Wizball\t0\nElite\t1");
    assert_eq!(picker::choice("Elite\t1\n", 2), picker::Choice::At(1));
    assert_eq!(picker::choice("Elite\t2\n", 2), picker::Choice::Unclear);
    assert_eq!(picker::choice("Elite", 2), picker::Choice::Unclear);
    assert_eq!(picker::choice(" \n", 2), picker::Choice::Nothing);
    assert_eq!(picker::chosen_lines(&titles, "Elite\nOther\n\n"), vec![1]);
    assert!(matches!(picker::entry_shown(1, 5, true), picker::Shown::FirstExact));
    assert!(matches!(picker::entry_shown(2, 5, false), picker::Shown::FirstExact));
    assert!(matches!(picker::entry_shown(2, 5, true), picker::Shown::Several));
    assert!(matches!(picker::entry_shown(0, 1, false), picker::Shown::Only));
    assert!(picker::several_note(2, "zak").starts_with("note: 2 GB64 entries titled like \"zak\";"));
}

#[test]
fn progress_stops_at_the_total() {
    let mut p = progress::Progress::new("scan", 10);
    p.set(4);
    assert_eq!(p.current, 4);
    p.inc(3);
    assert_eq!(p.current, 7);
    p.inc(100);
    assert_eq!(p.current, 10);
    let mut q = progress::Progress::new("count", 0);
    q.set(25);
    assert_eq!(q.current, 25);
}

#[test]
fn programs_and_devices_are_recognised() {
    assert!(run::is_native("/usr/bin/x64sc"));
    assert!(run::is_native("x64"));
    assert!(!run::is_native("wine"));
    assert_eq!(
        run::launch_note("/c/Wizball.d64", "/usr/bin/x64sc"),
        "LOAD\"*\",8,1 : RUN   ->  Wizball.d64   [x64sc]"
    );
    let pad = "  \"PrimaryUsage\" = 5\n  \"PrimaryUsagePage\" = 1\n";
    assert!(run::lists_controller(pad));
    let other = "  \"PrimaryUsage\" = 5\n  \"PrimaryUsagePage\" = 13\n";
    assert!(!run::lists_controller(other));
    let keyboard = "  \"PrimaryUsage\" = 6\n  \"PrimaryUsagePage\" = 1\n";
    assert!(!run::lists_controller(keyboard));
    assert!(!run::lists_controller(""));
}
