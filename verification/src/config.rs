//! Viewer settings: the minimum window footprint and the sort order.

use crate::text::{decimal_digits, number_text};
use vstd::prelude::*;

verus! {

/// The key by which the images of a directory are ordered.
#[derive(Clone, Copy, Debug, PartialEq, Eq, Structural)]
pub enum SortAlgorithm {
    /// By file stem: numerically where both stems are numbers, else as text
    /// without regard to case.
    FileName,
    /// By the time the file was created, oldest first.
    CreatedTime,
    /// By the time the file was last modified, oldest first.
    ModifiedTime,
}

/// Why a set of values is not a valid [`Config`].
#[derive(Clone, Copy, Debug, PartialEq, Eq, Structural)]
pub enum ConfigError {
    /// The minimum window width is not a positive number of 32 bits.
    WidthOutOfRange,
    /// The minimum window height is not a positive number of 32 bits.
    HeightOutOfRange,
    /// The sort algorithm is none of the three that there are.
    UnknownAlgorithm,
}

/// The settings of the viewer. They are read once at startup and never change.
#[derive(Clone, Copy, Debug, PartialEq, Eq, Structural)]
pub struct Config {
    /// Minimum window width in pixels.
    pub min_window_width: u32,
    /// Minimum window height in pixels.
    pub min_window_height: u32,
    /// How the images of a directory are ordered.
    pub sort_algorithm: SortAlgorithm,
}

/// Minimum window width of the default settings.
pub const DEFAULT_MIN_WINDOW_WIDTH: u32 = 800;

/// Minimum window height of the default settings.
pub const DEFAULT_MIN_WINDOW_HEIGHT: u32 = 600;

impl SortAlgorithm {
    /// The name under which the algorithm appears in a settings file.
    pub open spec fn spec_name(self) -> Seq<char> {
        match self {
            SortAlgorithm::FileName => "FileName"@,
            SortAlgorithm::CreatedTime => "CreatedTime"@,
            SortAlgorithm::ModifiedTime => "ModifiedTime"@,
        }
    }

    /// The algorithm that a settings file means by `name`, if any.
    pub open spec fn spec_from_name(name: Seq<char>) -> Option<SortAlgorithm> {
        if name == "FileName"@ {
            Some(SortAlgorithm::FileName)
        } else if name == "CreatedTime"@ {
            Some(SortAlgorithm::CreatedTime)
        } else if name == "ModifiedTime"@ {
            Some(SortAlgorithm::ModifiedTime)
        } else {
            None
        }
    }

    /// The name under which the algorithm appears in a settings file.
    pub fn name(&self) -> (r: &'static str)
        ensures
            r@ == self.spec_name(),
    {
        match self {
            SortAlgorithm::FileName => "FileName",
            SortAlgorithm::CreatedTime => "CreatedTime",
            SortAlgorithm::ModifiedTime => "ModifiedTime",
        }
    }

    /// Reads an algorithm name. The three names are matched exactly, case
    /// included; anything else is no algorithm.
    pub fn from_name(name: &str) -> (r: Option<SortAlgorithm>)
        ensures
            r == Self::spec_from_name(name@),
    {
        let owned = name.to_owned();
        if owned == "FileName".to_owned() {
            Some(SortAlgorithm::FileName)
        } else if owned == "CreatedTime".to_owned() {
            Some(SortAlgorithm::CreatedTime)
        } else if owned == "ModifiedTime".to_owned() {
            Some(SortAlgorithm::ModifiedTime)
        } else {
            None
        }
    }

    /// Every algorithm is read back from its own name.
    pub proof fn lemma_name_round_trip(alg: SortAlgorithm)
        ensures
            Self::spec_from_name(alg.spec_name()) == Some(alg),
    {
        // The three names differ in length.
        reveal_strlit("FileName");
        reveal_strlit("CreatedTime");
        reveal_strlit("ModifiedTime");
        assert("FileName"@.len() == 8);
        assert("CreatedTime"@.len() == 11);
        assert("ModifiedTime"@.len() == 12);
    }
}

impl Config {
    /// Both minimum dimensions are positive.
    pub open spec fn wf(&self) -> bool {
        self.min_window_width > 0 && self.min_window_height > 0
    }

    /// The settings used when no settings file exists.
    pub open spec fn spec_default() -> Config {
        Config {
            min_window_width: DEFAULT_MIN_WINDOW_WIDTH,
            min_window_height: DEFAULT_MIN_WINDOW_HEIGHT,
            sort_algorithm: SortAlgorithm::FileName,
        }
    }

    /// The settings that three values read from a settings file stand for,
    /// or what is wrong with the first of them that is wrong: both minimum
    /// dimensions must be positive and fit 32 bits, and the algorithm must be
    /// named exactly.
    pub open spec fn spec_from_values(width: int, height: int, algorithm: Seq<char>) -> Result<
        Config,
        ConfigError,
    > {
        if !(0 < width <= u32::MAX) {
            Err(ConfigError::WidthOutOfRange)
        } else if !(0 < height <= u32::MAX) {
            Err(ConfigError::HeightOutOfRange)
        } else {
            match SortAlgorithm::spec_from_name(algorithm) {
                Some(sort_algorithm) => Ok(
                    Config {
                        min_window_width: width as u32,
                        min_window_height: height as u32,
                        sort_algorithm,
                    },
                ),
                None => Err(ConfigError::UnknownAlgorithm),
            }
        }
    }

    /// Builds settings from their three values. A zero width is reported
    /// before a zero height.
    pub fn new(min_window_width: u32, min_window_height: u32, sort_algorithm: SortAlgorithm) -> (r:
        Result<Config, ConfigError>)
        ensures
            r == Self::spec_from_values(
                min_window_width as int,
                min_window_height as int,
                sort_algorithm.spec_name(),
            ),
            min_window_width == 0 ==> r == Err::<Config, ConfigError>(ConfigError::WidthOutOfRange),
            min_window_width > 0 && min_window_height == 0 ==> r == Err::<Config, ConfigError>(
                ConfigError::HeightOutOfRange,
            ),
            min_window_width > 0 && min_window_height > 0 ==> r == Ok::<Config, ConfigError>(
                (Config { min_window_width, min_window_height, sort_algorithm }),
            ),
            r is Ok ==> r->Ok_0.wf(),
    {
        proof {
            SortAlgorithm::lemma_name_round_trip(sort_algorithm);
        }
        if min_window_width == 0 {
            Err(ConfigError::WidthOutOfRange)
        } else if min_window_height == 0 {
            Err(ConfigError::HeightOutOfRange)
        } else {
            Ok(Config { min_window_width, min_window_height, sort_algorithm })
        }
    }

    /// Builds settings from the three values of a settings file as they were
    /// read: two numbers and the name of the algorithm.
    pub fn from_values(width: i64, height: i64, algorithm: &str) -> (r: Result<Config, ConfigError>)
        ensures
            r == Self::spec_from_values(width as int, height as int, algorithm@),
            r is Ok ==> r->Ok_0.wf(),
    {
        if width <= 0 || width > u32::MAX as i64 {
            Err(ConfigError::WidthOutOfRange)
        } else if height <= 0 || height > u32::MAX as i64 {
            Err(ConfigError::HeightOutOfRange)
        } else {
            match SortAlgorithm::from_name(algorithm) {
                Some(sort_algorithm) => Ok(
                    Config {
                        min_window_width: width as u32,
                        min_window_height: height as u32,
                        sort_algorithm,
                    },
                ),
                None => Err(ConfigError::UnknownAlgorithm),
            }
        }
    }

    /// Valid settings are read back from their own three values.
    pub proof fn lemma_values_round_trip(config: Config)
        requires
            config.wf(),
        ensures
            Self::spec_from_values(
                config.min_window_width as int,
                config.min_window_height as int,
                config.sort_algorithm.spec_name(),
            ) == Ok::<Config, ConfigError>(config),
    {
        SortAlgorithm::lemma_name_round_trip(config.sort_algorithm);
    }
}

/// The text of a settings file that holds `config`: three `key = value`
/// lines, with comment lines that explain them.
pub open spec fn spec_settings_text(config: Config) -> Seq<char> {
    "# rs_imgviewer.toml\n# Minimum window size in pixels\nmin_window_width  = "@
        + decimal_digits(config.min_window_width as nat) + "\nmin_window_height = "@
        + decimal_digits(config.min_window_height as nat)
        + "\n\n# Sort algorithm: \"FileName\" | \"CreatedTime\" | \"ModifiedTime\"\nsort_algorithm = \""@
        + config.sort_algorithm.spec_name() + "\"\n"@
}

/// Writes `config` as the text of a settings file.
pub fn settings_text(config: &Config) -> (text: String)
    ensures
        text@ == spec_settings_text(*config),
{
    let mut text = "# rs_imgviewer.toml\n# Minimum window size in pixels\nmin_window_width  = ".to_owned();
    text.append(number_text(config.min_window_width as u64).as_str());
    text.append("\nmin_window_height = ");
    text.append(number_text(config.min_window_height as u64).as_str());
    text.append(
        "\n\n# Sort algorithm: \"FileName\" | \"CreatedTime\" | \"ModifiedTime\"\nsort_algorithm = \"",
    );
    text.append(config.sort_algorithm.name());
    text.append("\"\n");
    text
}

/// The text of the settings file that is written where none exists: the
/// default settings.
pub fn default_settings_text() -> (text: String)
    ensures
        text@ == spec_settings_text(Config::spec_default()),
{
    settings_text(&Config::default())
}

impl Default for Config {
    /// The settings used when no settings file exists: an 800 by 600 minimum
    /// window, images ordered by file name.
    fn default() -> (r: Config)
        ensures
            r == Config::spec_default(),
            r.wf(),
    {
        Config {
            min_window_width: DEFAULT_MIN_WINDOW_WIDTH,
            min_window_height: DEFAULT_MIN_WINDOW_HEIGHT,
            sort_algorithm: SortAlgorithm::FileName,
        }
    }
}

} // verus!
