use streamdb::cli::{Cli, ImageSelection};
use streamdb::greeting::{Config, LayoutMode};
use streamdb::image::{encode, fit_dimensions, ImageDisplay, ImageProtocol, TerminalEnv};

#[test]
fn test_base64_encode() {
    assert_eq!(encode(b"Hello"), "SGVsbG8=");
    assert_eq!(encode(b"Man"), "TWFu");
}

#[test]
fn base64_pads_one_and_two_byte_tails() {
    assert_eq!(encode(b""), "");
    assert_eq!(encode(b"M"), "TQ==");
    assert_eq!(encode(b"Ma"), "TWE=");
    assert_eq!(encode(&[0xff, 0xfe, 0xfd]), "//79");
}

#[test]
fn banner_follows_layout_and_width() {
    let mut config = Config::default();
    assert!(config.should_show_banner(80));
    assert!(!config.should_show_banner(79));
    config.layout = LayoutMode::LogoOnly;
    assert!(!config.should_show_banner(200));
    config.layout = LayoutMode::Both;
    config.images.banner.enabled = false;
    assert!(!config.should_show_banner(200));
}

#[test]
fn logo_follows_layout_and_width() {
    let mut config = Config::default();
    assert!(config.should_show_logo(120));
    config.images.banner.enabled = false;
    assert!(!config.should_show_logo(120));
    assert!(config.should_show_logo(40));
    config.layout = LayoutMode::AsciiOnly;
    assert!(!config.should_show_logo(40));
}

fn env(term: Option<&str>, kitty: bool, program: Option<&str>, colorterm: Option<&str>) -> TerminalEnv {
    TerminalEnv {
        term: term.map(|s| s.as_bytes().to_vec()),
        kitty_window_id: kitty,
        term_program: program.map(|s| s.as_bytes().to_vec()),
        colorterm: colorterm.map(|s| s.as_bytes().to_vec()),
    }
}

#[test]
fn detects_protocols_from_environment() {
    let p = |e: TerminalEnv| ImageDisplay::detect(&e).get_protocol();
    assert_eq!(p(env(Some("xterm-kitty"), false, None, None)), ImageProtocol::Kitty);
    assert_eq!(p(env(Some("xterm"), true, None, None)), ImageProtocol::Kitty);
    assert_eq!(p(env(Some("xterm"), false, Some("iTerm.app"), None)), ImageProtocol::ITerm2);
    assert_eq!(p(env(Some("foot"), false, None, None)), ImageProtocol::Sixel);
    assert_eq!(p(env(None, false, Some("WezTerm"), None)), ImageProtocol::ITerm2);
    assert_eq!(p(env(None, false, Some("ghostty"), None)), ImageProtocol::Kitty);
    assert_eq!(p(env(None, false, None, Some("truecolor"))), ImageProtocol::HalfBlocks);
    assert_eq!(p(env(Some("xterm"), false, None, Some("24bit"))), ImageProtocol::HalfBlocks);
    assert_eq!(p(env(Some("xterm"), false, None, None)), ImageProtocol::Unsupported);
}

#[test]
fn cli_selects_images_and_ascii() {
    let display = ImageDisplay::with_protocol(ImageProtocol::Kitty);
    let cli = Cli::new(Config::default(), display, None);
    assert_eq!(cli.term_width, 80);
    assert_eq!(cli.display_images(), ImageSelection { banner: true, logo: false });
    assert!(!cli.should_show_ascii());

    let mut config = Config::default();
    config.fallback_to_ascii = false;
    let cli = Cli::new(config, ImageDisplay::with_protocol(ImageProtocol::Unsupported), Some(100));
    assert_eq!(cli.display_images(), ImageSelection { banner: false, logo: false });
    assert!(cli.should_show_ascii());

    let narrow = Cli::new(Config::default(), ImageDisplay::with_protocol(ImageProtocol::HalfBlocks), Some(60));
    assert_eq!(narrow.display_images(), ImageSelection { banner: false, logo: true });
}

#[test]
fn tip_is_picked_by_seed() {
    let mut config = Config::default();
    config.tips = vec!["a".to_string(), "b".to_string(), "c".to_string()];
    let cli = Cli::new(config, ImageDisplay::with_protocol(ImageProtocol::Kitty), Some(80));
    assert_eq!(cli.get_random_tip(4), Some("b".to_string()));
    let mut empty = Config::default();
    empty.tips.clear();
    let cli = Cli::new(empty, ImageDisplay::with_protocol(ImageProtocol::Kitty), Some(80));
    assert_eq!(cli.get_random_tip(4), None);
}

#[test]
fn images_are_fitted_to_limits() {
    assert_eq!(fit_dimensions(200, 100, Some(100), None, 300), (100, 50));
    assert_eq!(fit_dimensions(50, 40, None, Some(20), 300), (50, 20));
    assert_eq!(fit_dimensions(120, 60, None, None, 80), (80, 40));
    assert_eq!(fit_dimensions(10, 10, Some(20), Some(20), 80), (10, 10));
}

#[test]
fn default_config_values() {
    let config = Config::default();
    assert_eq!(config.images.banner.path, "/etc/oligarchy/banner.jpg");
    assert_eq!(config.images.logo.max_size, 15);
    assert_eq!(config.images.banner.max_height, 20);
    assert_eq!(config.tui.launch_command, "hyprctl dispatch exec kitty");
    assert_eq!(config.tips, vec!["Press Super+L to lock screen".to_string()]);
    assert_eq!(config.layout, LayoutMode::Adaptive);
}
