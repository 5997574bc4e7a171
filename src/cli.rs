//! The greeting's decisions: which images to draw, whether to fall back to
//! ASCII art, and which tip to show.
use vstd::prelude::*;
use crate::greeting::{Config, LayoutMode};
use crate::image::{ImageDisplay, ImageProtocol};

verus! {

/// Terminal width assumed when the real one cannot be read.
pub const DEFAULT_TERMINAL_WIDTH: u16 = 80;

/// Which images the greeting draws, in order: banner first.
#[derive(Clone, Copy, Debug, PartialEq, Eq, Structural)]
pub struct ImageSelection {
    pub banner: bool,
    pub logo: bool,
}

/// The greeting for one terminal.
pub struct Cli {
    pub config: Config,
    pub image_display: ImageDisplay,
    pub term_width: u16,
}

/// What the greeting draws for a layout, given the terminal's protocol and width.
pub open spec fn selection_of(
    protocol: ImageProtocol,
    fallback: bool,
    layout: LayoutMode,
    banner_enabled: bool,
    logo_enabled: bool,
    width: u16,
) -> ImageSelection {
    if protocol == ImageProtocol::Unsupported && !fallback {
        ImageSelection { banner: false, logo: false }
    } else {
        match layout {
            LayoutMode::Adaptive => if width >= 80 && banner_enabled {
                ImageSelection { banner: true, logo: false }
            } else {
                ImageSelection { banner: false, logo: logo_enabled }
            },
            LayoutMode::BannerOnly => ImageSelection { banner: true, logo: false },
            LayoutMode::LogoOnly => ImageSelection { banner: false, logo: true },
            LayoutMode::Both => ImageSelection { banner: true, logo: true },
            LayoutMode::AsciiOnly => ImageSelection { banner: false, logo: false },
        }
    }
}

impl Cli {
    /// A greeting with the detected display and the terminal's width, 80
    /// columns when it could not be read.
    pub fn new(config: Config, image_display: ImageDisplay, term_width: Option<u16>) -> (r: Cli)
        ensures
            r.term_width == match term_width {
                Some(w) => w,
                None => DEFAULT_TERMINAL_WIDTH,
            },
            r.image_display.protocol_view() == image_display.protocol_view(),
    {
        let w = match term_width {
            Some(w) => w,
            None => DEFAULT_TERMINAL_WIDTH,
        };
        Cli { config, image_display, term_width: w }
    }

    /// The images to draw.
    pub fn display_images(&self) -> (r: ImageSelection)
        ensures
            r == selection_of(
                self.image_display.protocol_view(),
                self.config.fallback_to_ascii,
                self.config.layout,
                self.config.images.banner.enabled,
                self.config.images.logo.enabled,
                self.term_width,
            ),
    {
        let protocol = self.image_display.get_protocol();
        if protocol == ImageProtocol::Unsupported && !self.config.fallback_to_ascii {
            return ImageSelection { banner: false, logo: false };
        }
        match self.config.layout {
            LayoutMode::Adaptive => {
                if self.term_width >= 80 && self.config.images.banner.enabled {
                    ImageSelection { banner: true, logo: false }
                } else {
                    ImageSelection { banner: false, logo: self.config.images.logo.enabled }
                }
            },
            LayoutMode::BannerOnly => ImageSelection { banner: true, logo: false },
            LayoutMode::LogoOnly => ImageSelection { banner: false, logo: true },
            LayoutMode::Both => ImageSelection { banner: true, logo: true },
            LayoutMode::AsciiOnly => ImageSelection { banner: false, logo: false },
        }
    }

    /// Whether the ASCII art header is drawn: always in the ASCII layout,
    /// otherwise when the terminal draws no images or both images are off.
    pub fn should_show_ascii(&self) -> (r: bool)
        ensures
            r == (self.config.layout == LayoutMode::AsciiOnly || self.image_display.protocol_view()
                == ImageProtocol::Unsupported || (!self.config.images.banner.enabled
                && !self.config.images.logo.enabled)),
    {
        match self.config.layout {
            LayoutMode::AsciiOnly => true,
            _ => {
                let protocol = self.image_display.get_protocol();
                protocol == ImageProtocol::Unsupported || (!self.config.images.banner.enabled
                    && !self.config.images.logo.enabled)
            },
        }
    }

    /// The tip picked by `seed` (the current time in seconds): tip number
    /// `seed % tips`, `None` without tips.
    pub fn get_random_tip(&self, seed: u64) -> (r: Option<String>)
        ensures
            self.config.tips@.len() == 0 ==> r is None,
            self.config.tips@.len() > 0 ==> (r matches Some(t) && t@ == self.config.tips@[(seed
                % self.config.tips@.len() as u64) as int]@),
    {
        if self.config.tips.len() == 0 {
            return None;
        }
        let index = (seed % self.config.tips.len() as u64) as usize;
        Some(self.config.tips[index].clone())
    }
}

} // verus!
