//! Command-line settings of a run, and how they combine with the settings
//! file.
use vstd::prelude::*;
use crate::engine::text::{strings_view, text_view};
use crate::settings::Settings;

verus! {

/// The command-line arguments: where locale files and sources live, and
/// which mode to run in.
pub struct Args {
    /// Root directory of the locale files, where given on the command line.
    pub locales: Option<String>,
    /// Root directory of the source files, where given on the command line.
    pub src: Option<String>,
    /// Remove unused keys from the locale files instead of reporting them.
    pub fix: bool,
    /// Also list the dynamic usage sites in the report.
    pub log: bool,
    /// Glob patterns of source files to skip, relative to `src`.
    pub src_exclude: Vec<String>,
    /// Glob patterns of locale files to skip, relative to `locales`.
    pub locales_exclude: Vec<String>,
}

/// The locations a run analyses, and what it skips there.
pub struct Config {
    pub locales: String,
    pub src: String,
    pub src_exclude: Vec<String>,
    pub locales_exclude: Vec<String>,
}

/// Why no configuration can be formed.
#[derive(Clone, Copy, Debug, PartialEq, Eq, Structural)]
pub enum ConfigError {
    /// Neither the command line nor the settings file names the locale root.
    MissingLocales,
    /// Neither the command line nor the settings file names the source root.
    MissingSrc,
}

/// The value given on the command line, else the one from the settings file.
pub open spec fn preferred(given: Option<Seq<char>>, file: Option<Seq<char>>) -> Option<Seq<char>> {
    match given {
        Some(v) => Some(v),
        None => file,
    }
}

/// The patterns of an exclude list, or none where it is not set.
pub open spec fn patterns(o: Option<Seq<Seq<char>>>) -> Seq<Seq<char>> {
    match o {
        Some(items) => items,
        None => Seq::empty(),
    }
}

impl Args {
    /// Whether unused keys are to be removed.
    pub fn fix_mode(&self) -> (r: bool)
        ensures
            r == self.fix,
    {
        self.fix
    }

    /// Whether dynamic usage sites are to be listed.
    pub fn log_mode(&self) -> (r: bool)
        ensures
            r == self.log,
    {
        self.log
    }

    /// The configuration of a run: the arguments, completed by the settings
    /// file `file`.
    ///
    /// A root given on the command line wins over the one in the file; the
    /// exclude patterns of the file come first, then those of the command
    /// line.  Fails when a root is named nowhere (the locale root is checked
    /// first).
    pub fn into_config(self, file: Settings) -> (r: Result<Config, ConfigError>)
        ensures
            (r == Err::<Config, ConfigError>(ConfigError::MissingLocales)) <==> preferred(
                text_view(self.locales),
                file@.locales,
            ) is None,
            (r == Err::<Config, ConfigError>(ConfigError::MissingSrc)) <==> (preferred(
                text_view(self.locales),
                file@.locales,
            ) is Some && preferred(text_view(self.src), file@.src) is None),
            r matches Ok(config) ==> {
                &&& preferred(text_view(self.locales), file@.locales) == Some(config.locales@)
                &&& preferred(text_view(self.src), file@.src) == Some(config.src@)
                &&& strings_view(config.src_exclude@) == patterns(file@.src_exclude)
                    + strings_view(self.src_exclude@)
                &&& strings_view(config.locales_exclude@) == patterns(file@.locales_exclude)
                    + strings_view(self.locales_exclude@)
            },
    {
        let locales = match self.locales {
            Some(l) => l,
            None => match file.locales {
                Some(l) => l,
                None => {
                    return Err(ConfigError::MissingLocales);
                },
            },
        };
        let src = match self.src {
            Some(s) => s,
            None => match file.src {
                Some(s) => s,
                None => {
                    return Err(ConfigError::MissingSrc);
                },
            },
        };
        let mut src_exclude = match file.src_exclude {
            Some(v) => v,
            None => Vec::new(),
        };
        let mut given_src = self.src_exclude;
        let ghost a = strings_view(src_exclude@);
        let ghost b = strings_view(given_src@);
        src_exclude.append(&mut given_src);
        assert(strings_view(src_exclude@) =~= a + b);
        let mut locales_exclude = match file.locales_exclude {
            Some(v) => v,
            None => Vec::new(),
        };
        let mut given_locales = self.locales_exclude;
        let ghost c = strings_view(locales_exclude@);
        let ghost d = strings_view(given_locales@);
        locales_exclude.append(&mut given_locales);
        assert(strings_view(locales_exclude@) =~= c + d);
        Ok(Config { locales, src, src_exclude, locales_exclude })
    }
}

} // verus!
