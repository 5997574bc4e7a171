//! Settings of the terminal greeting: art, messages, links, tips, and which
//! images the layout shows at a given terminal width.
use vstd::prelude::*;

verus! {

/// A named link shown under the greeting.
pub struct Link {
    pub name: String,
    pub url: String,
}

/// How the greeting arranges its images.
#[derive(Clone, Copy, Debug, PartialEq, Eq, Structural)]
pub enum LayoutMode {
    Adaptive,
    BannerOnly,
    LogoOnly,
    Both,
    AsciiOnly,
}

impl Default for LayoutMode {
    fn default() -> (r: LayoutMode)
        ensures
            r == LayoutMode::Adaptive,
    {
        LayoutMode::Adaptive
    }
}

/// The wide image shown at the top.
pub struct BannerConfig {
    pub path: String,
    pub enabled: bool,
    pub position: String,
    pub aspect_ratio: String,
    pub max_height: u32,
}

/// The square image shown beside the text.
pub struct LogoConfig {
    pub path: String,
    pub enabled: bool,
    pub position: String,
    pub aspect_ratio: String,
    pub max_size: u32,
}

/// Both images.
pub struct ImageConfig {
    pub banner: BannerConfig,
    pub logo: LogoConfig,
}

/// The interactive launcher after the greeting.
pub struct TuiConfig {
    pub enabled: bool,
    pub show_launcher: bool,
    pub launch_command: String,
}

/// Everything the greeting shows.
pub struct Config {
    pub ascii_art: String,
    pub welcome_message: String,
    pub show_system_info: bool,
    pub custom_links: Vec<Link>,
    pub tips: Vec<String>,
    pub images: ImageConfig,
    pub layout: LayoutMode,
    pub fallback_to_ascii: bool,
    pub tui: TuiConfig,
}

/// Terminals at least this wide get the banner in the adaptive layout.
pub const WIDE_TERMINAL: u16 = 80;

pub fn default_true() -> (r: bool)
    ensures
        r,
{
    true
}

pub fn default_banner_path() -> (r: String)
    ensures
        r@ == "/etc/oligarchy/banner.jpg"@,
{
    "/etc/oligarchy/banner.jpg".to_owned()
}

pub fn default_logo_path() -> (r: String)
    ensures
        r@ == "/etc/oligarchy/logo.png"@,
{
    "/etc/oligarchy/logo.png".to_owned()
}

pub fn default_position() -> (r: String)
    ensures
        r@ == "header"@,
{
    "header".to_owned()
}

pub fn default_logo_position() -> (r: String)
    ensures
        r@ == "sidebar"@,
{
    "sidebar".to_owned()
}

pub fn default_aspect_ratio() -> (r: String)
    ensures
        r@ == "16:9"@,
{
    "16:9".to_owned()
}

pub fn default_logo_aspect_ratio() -> (r: String)
    ensures
        r@ == "1:1"@,
{
    "1:1".to_owned()
}

pub fn default_max_height() -> (r: u32)
    ensures
        r == 20,
{
    20
}

pub fn default_max_size() -> (r: u32)
    ensures
        r == 15,
{
    15
}

pub fn default_launch_command() -> (r: String)
    ensures
        r@ == "hyprctl dispatch exec kitty"@,
{
    "hyprctl dispatch exec kitty".to_owned()
}

pub fn default_ascii_art() -> (r: String)
    ensures
        r@ == ".d88b. 8    888 .d88b     db    888b. .d88b 8   8 Yb  dP\n8P  Y8 8     8  8P www   dPYb   8  .8 8P    8www8  YbdP\n8b  d8 8     8  8b  d8  dPwwYb  8wwK' 8b    8   8   YP\n`Y88P' 8888 888 `Y88P' dP    Yb 8  Yb `Y88P 8   8   88"@,
{
    ".d88b. 8    888 .d88b     db    888b. .d88b 8   8 Yb  dP\n8P  Y8 8     8  8P www   dPYb   8  .8 8P    8www8  YbdP\n8b  d8 8     8  8b  d8  dPwwYb  8wwK' 8b    8   8   YP\n`Y88P' 8888 888 `Y88P' dP    Yb 8  Yb `Y88P 8   8   88".to_owned()
}

pub fn default_welcome_message() -> (r: String)
    ensures
        r@ == "Welcome to Oligarchy \u{2014} The War Machine"@,
{
    "Welcome to Oligarchy \u{2014} The War Machine".to_owned()
}

pub fn default_tips() -> (r: Vec<String>)
    ensures
        r@.len() == 1,
        r@[0]@ == "Press Super+L to lock screen"@,
{
    let mut v: Vec<String> = Vec::new();
    v.push("Press Super+L to lock screen".to_owned());
    v
}

impl Default for Link {
    fn default() -> (r: Link)
        ensures
            r.name@.len() == 0,
            r.url@.len() == 0,
    {
        Link { name: String::new(), url: String::new() }
    }
}

impl Default for BannerConfig {
    fn default() -> (r: BannerConfig)
        ensures
            r.enabled,
            r.max_height == 20,
            r.path@ == "/etc/oligarchy/banner.jpg"@,
            r.position@ == "header"@,
            r.aspect_ratio@ == "16:9"@,
    {
        BannerConfig {
            path: default_banner_path(),
            enabled: true,
            position: default_position(),
            aspect_ratio: default_aspect_ratio(),
            max_height: default_max_height(),
        }
    }
}

impl Default for LogoConfig {
    fn default() -> (r: LogoConfig)
        ensures
            r.enabled,
            r.max_size == 15,
            r.path@ == "/etc/oligarchy/logo.png"@,
            r.position@ == "sidebar"@,
            r.aspect_ratio@ == "1:1"@,
    {
        LogoConfig {
            path: default_logo_path(),
            enabled: true,
            position: default_logo_position(),
            aspect_ratio: default_logo_aspect_ratio(),
            max_size: default_max_size(),
        }
    }
}

impl Default for ImageConfig {
    fn default() -> (r: ImageConfig)
        ensures
            r.banner.enabled,
            r.logo.enabled,
            r.banner.max_height == 20,
            r.logo.max_size == 15,
    {
        ImageConfig { banner: BannerConfig::default(), logo: LogoConfig::default() }
    }
}

impl Default for TuiConfig {
    fn default() -> (r: TuiConfig)
        ensures
            r.enabled,
            r.show_launcher,
            r.launch_command@ == "hyprctl dispatch exec kitty"@,
    {
        TuiConfig { enabled: true, show_launcher: true, launch_command: default_launch_command() }
    }
}

impl Default for Config {
    fn default() -> (r: Config)
        ensures
            r.show_system_info,
            r.fallback_to_ascii,
            r.layout == LayoutMode::Adaptive,
            r.custom_links@.len() == 0,
            r.tips@.len() == 1,
            r.images.banner.enabled,
            r.images.logo.enabled,
            r.tui.enabled,
    {
        Config {
            ascii_art: default_ascii_art(),
            welcome_message: default_welcome_message(),
            show_system_info: true,
            custom_links: Vec::new(),
            tips: default_tips(),
            images: ImageConfig::default(),
            layout: LayoutMode::default(),
            fallback_to_ascii: true,
            tui: TuiConfig::default(),
        }
    }
}

/// Whether the banner shows: it must be enabled, and the layout must ask for
/// it, or be adaptive on a terminal at least 80 columns wide.
pub open spec fn banner_shown(layout: LayoutMode, banner_enabled: bool, width: u16) -> bool {
    banner_enabled && match layout {
        LayoutMode::BannerOnly | LayoutMode::Both => true,
        LayoutMode::Adaptive => width >= WIDE_TERMINAL,
        _ => false,
    }
}

/// Whether the logo shows: it must be enabled, and the layout must ask for
/// it, or be adaptive on a narrow terminal or with the banner enabled.
pub open spec fn logo_shown(layout: LayoutMode, logo_enabled: bool, banner_enabled: bool, width: u16) -> bool {
    logo_enabled && match layout {
        LayoutMode::LogoOnly | LayoutMode::Both => true,
        LayoutMode::Adaptive => width < WIDE_TERMINAL || banner_enabled,
        _ => false,
    }
}

impl Config {
    pub fn should_show_banner(&self, term_width: u16) -> (r: bool)
        ensures
            r == banner_shown(self.layout, self.images.banner.enabled, term_width),
    {
        if !self.images.banner.enabled {
            return false;
        }
        match self.layout {
            LayoutMode::BannerOnly | LayoutMode::Both => true,
            LayoutMode::Adaptive => term_width >= WIDE_TERMINAL,
            _ => false,
        }
    }

    pub fn should_show_logo(&self, term_width: u16) -> (r: bool)
        ensures
            r == logo_shown(self.layout, self.images.logo.enabled, self.images.banner.enabled, term_width),
    {
        if !self.images.logo.enabled {
            return false;
        }
        match self.layout {
            LayoutMode::LogoOnly => true,
            LayoutMode::Both => true,
            LayoutMode::Adaptive => term_width < WIDE_TERMINAL || self.images.banner.enabled,
            _ => false,
        }
    }
}

} // verus!
