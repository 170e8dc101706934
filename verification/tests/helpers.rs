use startui::utils::{
    get_current_song, logo_cache_file_name, logo_from_output, song_from_player_output,
    trim_newlines, trim_whitespace,
};

#[test]
fn current_song_off_linux() {
    assert_eq!(get_current_song(), "Music PLayer only on Linux for now :( Sorry for that");
}

#[test]
fn player_output_is_trimmed() {
    assert_eq!(song_from_player_output(Some((true, &b"  Song - Artist \n"[..]))), "Song - Artist");
    assert_eq!(song_from_player_output(Some((true, &b""[..]))), "");
}

#[test]
fn player_failure_means_no_music() {
    assert_eq!(song_from_player_output(Some((false, &b"Song - Artist"[..]))), "No Music Playing");
    assert_eq!(song_from_player_output(None), "No Music Playing");
}

#[test]
fn player_output_invalid_utf8_is_replaced() {
    assert_eq!(song_from_player_output(Some((true, &b"Caf\xff"[..]))), "Caf\u{fffd}");
    assert_eq!(song_from_player_output(Some((true, "Café\n".as_bytes()))), "Café");
}

#[test]
fn logo_output_loses_only_newlines() {
    assert_eq!(logo_from_output(Some((true, &b"\n\n  /\\\n ( )\n\n"[..]))), "  /\\\n ( )");
    assert_eq!(logo_from_output(Some((false, &b"ignored"[..]))), "   _ _\n  (o.o)\n   > <\n /  |  \\");
    assert_eq!(logo_from_output(None), "   _ _\n  (o.o)\n   > <\n /  |  \\");
}

#[test]
fn trims_match_std() {
    let samples = ["", "   ", " a ", "\u{3000}x y\u{a0}", "\n\nab\n", "a\n \n", "\t\n"];
    for s in samples {
        assert_eq!(trim_whitespace(s), s.trim(), "{:?}", s);
        assert_eq!(trim_newlines(s), s.trim_matches('\n'), "{:?}", s);
    }
}

#[test]
fn logo_cache_names() {
    assert_eq!(logo_cache_file_name("Arch Linux"), "arch_linux.txt");
    assert_eq!(logo_cache_file_name("Ubuntu 24.04 LTS"), "ubuntu_24.04_lts.txt");
    assert_eq!(logo_cache_file_name(""), ".txt");
    assert_eq!(logo_cache_file_name("ÄÖ Ü"), "äö_ü.txt");
}
